//! Hierarchical navigable small world index for approximate
//! nearest-neighbour search.
//!
//! The index is a graph of several layers. Each node appears at the layers
//! from 0 up to its level, which is drawn from an exponential distribution.
//! Higher layers lead a search into the right region; layer 0, which holds
//! every node, refines it.
//!
//! - [`graph`]: the graph as mathematics.
//! - [`float`] and [`math`]: floats as bit patterns, and the arithmetic on
//!   them that the index takes from its caller.
//! - [`walk`] and [`search`]: greedy descent and beam search, step by step and
//!   as they run.
//! - [`select`]: the choice of neighbours.
//! - [`insert`], [`delete`] and [`query`]: the operations of an index.
//! - [`laws`] and [`delete_laws`]: what the operations promise of links and
//!   results.
//! - [`check`]: whether a graph that was read can be walked.
//! - [`snapshot`] and [`snapshot_laws`]: the bytes of a snapshot, that it
//!   reads back as it was written, and that damage is refused.

use crate::hnsw::graph::{NodeView, Nodes};
use vstd::prelude::*;

pub mod check;
pub mod delete;
pub mod delete_laws;
pub mod float;
pub mod graph;
pub mod insert;
pub mod laws;
pub mod math;
pub mod query;
pub mod search;
pub mod select;
pub mod snapshot;
pub mod snapshot_laws;
pub mod walk;

verus! {

/// Distance metric, fixed when an index is made. Smaller is closer for each.
#[derive(Debug, Clone, Copy, PartialEq, Eq, Structural)]
pub enum DistanceMetric {
    /// 1 - cosine similarity. Vectors are brought to unit length.
    Cosine,
    /// Squared Euclidean distance.
    EuclideanSquared,
    /// Negated inner product.
    InnerProduct,
}

impl Default for DistanceMetric {
    fn default() -> (m: Self)
        ensures
            m == DistanceMetric::Cosine,
    {
        DistanceMetric::Cosine
    }
}

/// Identifier of a node.
pub type NodeId = u32;

/// Parameters of an index.
#[derive(Debug, Clone, Copy, PartialEq, Eq, Structural)]
pub struct HnswParams {
    /// Distance metric.
    pub metric: DistanceMetric,
    /// Neighbours that a new node is linked to at each layer, and the cap at
    /// the layers above 0.
    pub m: usize,
    /// Cap at layer 0.
    pub m_max_0: usize,
    /// Beam width of inserts.
    pub ef_construction: usize,
    /// Beam width of searches.
    pub ef_search: usize,
    /// Vector dimension; 0 leaves it to the first insert.
    pub dim: usize,
    /// Seed of the level generator.
    pub seed: u64,
}

impl Default for HnswParams {
    fn default() -> (p: Self)
        ensures
            p == (HnswParams {
                metric: DistanceMetric::Cosine,
                m: 16,
                m_max_0: 32,
                ef_construction: 100,
                ef_search: 50,
                dim: 0,
                seed: 0x00C0_FFEE_BABE,
            }),
    {
        HnswParams {
            metric: DistanceMetric::Cosine,
            m: 16,
            m_max_0: 32,
            ef_construction: 100,
            ef_search: 50,
            dim: 0,
            seed: 0x00C0_FFEE_BABE,
        }
    }
}

/// Where a search starts.
#[derive(Debug, Clone, Copy, PartialEq, Eq, Structural)]
pub struct EntryPoint {
    pub node: NodeId,
    pub level: u8,
}

/// A node of the graph.
#[derive(Debug)]
pub(crate) struct Node {
    /// The vector, brought to unit length where the metric asks for it.
    vector: Vec<u32>,
    /// The neighbours at each layer. They may have been deleted: a walk may
    /// lead through them.
    neighbors: Vec<Vec<NodeId>>,
    /// Deleted nodes are left out of results.
    deleted: bool,
}

impl View for Node {
    type V = NodeView;

    closed spec fn view(&self) -> NodeView {
        NodeView {
            vector: self.vector@,
            layers: self.neighbors@.map_values(|l: Vec<NodeId>| l@),
            deleted: self.deleted,
        }
    }
}

/// The index.
#[derive(Debug)]
pub struct HnswIndex {
    params: HnswParams,
    dim: usize,
    nodes: Vec<Node>,
    entry: Option<EntryPoint>,
    /// Levels drawn from the generator so far.
    draws: u64,
}

impl HnswIndex {
    /// The nodes.
    pub closed spec fn nodes(&self) -> Nodes {
        self.nodes@.map_values(|n: Node| n@)
    }

    /// The entry point.
    pub closed spec fn entry(&self) -> Option<EntryPoint> {
        self.entry
    }

    /// The parameters.
    pub closed spec fn spec_params(&self) -> HnswParams {
        self.params
    }

    /// The vector dimension; 0 if it is not established.
    pub closed spec fn spec_dim(&self) -> usize {
        self.dim
    }

    /// Levels drawn from the generator so far.
    pub closed spec fn spec_draws(&self) -> u64 {
        self.draws
    }

    /// The graph can be walked.
    pub open spec fn wf(&self) -> bool {
        graph::graph_ok(self.nodes(), self.entry())
    }

    /// An empty index.
    pub fn new(params: HnswParams) -> (h: HnswIndex)
        ensures
            h.wf(),
            h.nodes() == Seq::<NodeView>::empty(),
            h.entry() is None,
            h.spec_params() == params,
            h.spec_dim() == params.dim,
            h.spec_draws() == 0,
    {
        let h = HnswIndex { params, dim: params.dim, nodes: Vec::new(), entry: None, draws: 0 };
        assert(h.nodes() =~= Seq::<NodeView>::empty());
        h
    }

    /// Number of nodes, deleted ones included.
    pub fn len(&self) -> (n: usize)
        ensures
            n == self.nodes().len(),
    {
        self.nodes.len()
    }

    /// True if there are no nodes.
    pub fn is_empty(&self) -> (r: bool)
        ensures
            r == (self.nodes().len() == 0),
    {
        self.nodes.len() == 0
    }

    /// The distance metric.
    pub fn metric(&self) -> (m: DistanceMetric)
        ensures
            m == self.spec_params().metric,
    {
        self.params.metric
    }

    /// True if `id` was deleted or never existed.
    pub fn is_deleted(&self, id: NodeId) -> (r: bool)
        ensures
            r == !graph::is_live(self.nodes(), id as int),
    {
        id as usize >= self.nodes.len() || self.nodes[id as usize].deleted
    }

    /// Number of live nodes.
    pub fn live_len(&self) -> (n: usize)
        ensures
            n == graph::live_count(self.nodes()),
    {
        let mut live: usize = 0;
        let n = self.nodes.len();
        for i in 0..n
            invariant
                n == self.nodes@.len(),
                live <= i,
                live == graph::live_count(self.nodes().take(i as int)),
        {
            proof {
                let all = self.nodes();
                assert(all.take(i + 1).drop_last() =~= all.take(i as int));
                assert(all.take(i + 1).last() == all[i as int]);
            }
            if !self.nodes[i].deleted {
                live = live + 1;
            }
        }
        proof {
            assert(self.nodes().take(n as int) =~= self.nodes());
        }
        live
    }

    /// The vector dimension; 0 means "not yet established".
    pub fn dim(&self) -> (n: usize)
        ensures
            n == self.spec_dim(),
    {
        self.dim
    }
}

} // verus!
