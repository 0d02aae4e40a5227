//! Check that a decoded graph can be walked.

use crate::hnsw::graph;
use crate::hnsw::{HnswIndex, NodeId};
use vstd::prelude::*;

verus! {

impl HnswIndex {
    /// True if the graph can be walked: a snapshot whose checksum holds may
    /// still have links that lead to a layer where a node does not appear.
    pub fn check(&self) -> (r: bool)
        ensures
            r == self.wf(),
    {
        let ghost nodes = self.nodes();
        if self.nodes.len() as u64 > u32::MAX as u64 {
            return false;
        }
        let n = self.nodes.len();
        for i in 0..n
            invariant
                n == self.nodes@.len(),
                nodes == self.nodes(),
                forall|id: int| 0 <= id < i ==> 1 <= (#[trigger] nodes[id]).layers.len() <= 255,
                forall|id: int, layer: int, j: int|
                    #![trigger nodes[id].layers[layer][j]]
                    0 <= id < i && graph::has_layer(nodes, id, layer) && 0 <= j
                        < nodes[id].layers[layer].len() ==> graph::has_layer(
                        nodes,
                        nodes[id].layers[layer][j] as int,
                        layer,
                    ),
        {
            let count = self.nodes[i].neighbors.len();
            assert(count == nodes[i as int].layers.len());
            if count < 1 || count > 255 {
                assert(!graph::shape_ok(nodes));
                return false;
            }
            for l in 0..count
                invariant
                    i < n,
                    n == self.nodes@.len(),
                    nodes == self.nodes(),
                    count == nodes[i as int].layers.len(),
                    forall|layer: int, j: int|
                        #![trigger nodes[i as int].layers[layer][j]]
                        0 <= layer < l && 0 <= j < nodes[i as int].layers[layer].len()
                            ==> graph::has_layer(
                            nodes,
                            nodes[i as int].layers[layer][j] as int,
                            layer,
                        ),
            {
                let list = &self.nodes[i].neighbors[l];
                assert(list@ == nodes[i as int].layers[l as int]);
                if !self.all_at_layer(list, l) {
                    proof {
                        let j = choose|j: int|
                            0 <= j < list@.len() && !graph::has_layer(
                                nodes,
                                #[trigger] list@[j] as int,
                                l as int,
                            );
                        assert(nodes[i as int].layers[l as int][j] == list@[j]);
                        assert(!graph::links_ok(nodes));
                    }
                    return false;
                }
                assert forall|j: int| 0 <= j < nodes[i as int].layers[l as int].len() implies
                    graph::has_layer(
                    nodes,
                    #[trigger] nodes[i as int].layers[l as int][j] as int,
                    l as int,
                ) by {
                    assert(nodes[i as int].layers[l as int][j] == list@[j]);
                }
            }
        }
        match self.entry {
            None => true,
            Some(e) => (e.node as usize) < n && (e.level as usize)
                < self.nodes[e.node as usize].neighbors.len(),
        }
    }

    /// True if all of `list` appear at `layer`.
    fn all_at_layer(&self, list: &Vec<NodeId>, layer: usize) -> (r: bool)
        ensures
            r == (forall|j: int|
                0 <= j < list@.len() ==> graph::has_layer(
                    self.nodes(),
                    #[trigger] list@[j] as int,
                    layer as int,
                )),
    {
        let n = list.len();
        for j in 0..n
            invariant
                n == list@.len(),
                forall|k: int|
                    0 <= k < j ==> graph::has_layer(
                        self.nodes(),
                        #[trigger] list@[k] as int,
                        layer as int,
                    ),
        {
            let x = list[j];
            if x as usize >= self.nodes.len() || layer >= self.nodes[x as usize].neighbors.len() {
                assert(!graph::has_layer(self.nodes(), list@[j as int] as int, layer as int));
                return false;
            }
        }
        true
    }
}

} // verus!
