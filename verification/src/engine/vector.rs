//! The vector index of an engine: the graph and the keys of its nodes.

use crate::assoc;
use crate::codec;
use crate::codec::{copy_bytes, push_numbers};
use crate::error::{corruption, Result};
use crate::hnsw::delete;
use crate::hnsw::graph;
use crate::hnsw::insert;
use crate::hnsw::math::VectorMath;
use crate::hnsw::snapshot;
use crate::hnsw::{HnswIndex, HnswParams, NodeId};
use crate::keymap::KeyMap;
use std::collections::HashMap;
use vstd::prelude::*;
use vstd::slice::slice_to_vec;

verus! {

/// The components that the bytes of a vector stand for.
pub open spec fn components(b: Seq<u8>) -> Seq<u32> {
    codec::numbers(b, b.len() as int / 4)
}

/// Encodes an embedding: four bytes per component, least significant first.
pub fn encode_vector(v: &[u32]) -> (b: Vec<u8>)
    ensures
        b@ == codec::u32s_bytes(v@),
{
    let mut out: Vec<u8> = Vec::new();
    push_numbers(&slice_to_vec(v), &mut out);
    assert(out@ =~= codec::u32s_bytes(v@));
    out
}

/// Decodes an embedding.
pub fn decode_vector(bytes: &[u8]) -> (r: Result<Vec<u32>>)
    ensures
        match r {
            Ok(v) => bytes@.len() % 4 == 0 && v@ == components(bytes@),
            Err(e) => bytes@.len() % 4 != 0 && e is Corruption,
        },
{
    if bytes.len() % 4 != 0 {
        return Err(corruption("vector byte length is not a multiple of 4"));
    }
    let n: usize = bytes.len() / 4;
    let mut out: Vec<u32> = Vec::new();
    let mut i: usize = 0;
    while i < n
        invariant
            i <= n,
            n == bytes@.len() / 4,
            bytes@.len() % 4 == 0,
            bytes@.len() <= usize::MAX,
            out@ == components(bytes@).take(i as int),
        decreases n - i,
    {
        out.push(codec::get_u32(bytes, i * 4));
        assert(out@ =~= components(bytes@).take(i + 1));
        i = i + 1;
    }
    assert(out@ =~= components(bytes@));
    Ok(out)
}

/// Decoding undoes encoding.
pub proof fn lemma_vector_round_trip(v: Seq<u32>)
    ensures
        codec::u32s_bytes(v).len() % 4 == 0,
        components(codec::u32s_bytes(v)) == v,
{
    codec::lemma_numbers(v, Seq::empty());
    let b = codec::u32s_bytes(v);
    assert(b + Seq::<u8>::empty() =~= b);
}

/// The vector index: the graph, the node of each key, and the key of each
/// node.
#[derive(Debug)]
pub struct VectorIndex {
    hnsw: HnswIndex,
    key_to_node: KeyMap<NodeId>,
    node_to_key: HashMap<NodeId, Vec<u8>>,
    /// Vector dimension; none until the first insert.
    expected_dim: Option<usize>,
}

impl VectorIndex {
    /// The graph.
    pub closed spec fn graph(&self) -> HnswIndex {
        self.hnsw
    }

    /// The keys with their nodes.
    pub closed spec fn keys(&self) -> Seq<(Seq<u8>, u32)> {
        self.key_to_node.pairs()
    }

    /// The nodes with their keys.
    pub closed spec fn reverse(&self) -> Map<u32, Vec<u8>> {
        self.node_to_key@
    }

    /// `graph` is the graph without the node of `k`, if there is one.
    pub open spec fn drops<M: VectorMath>(&self, math: &M, k: Seq<u8>, graph: HnswIndex) -> bool {
        match self.node_of(k) {
            Some(id) => delete::deletes(math, self.graph(), id, graph),
            None => graph == self.graph(),
        }
    }

    /// `k` has the node `node` in `after`, and the other keys have theirs.
    pub open spec fn rekeys(&self, k: Seq<u8>, node: Option<u32>, after: &VectorIndex) -> bool {
        forall|x: Seq<u8>| #[trigger]
            after.node_of(x) == (if x == k {
                node
            } else {
                self.node_of(x)
            })
    }

    /// `graph` is the graph without the node of `k`, if there is one, and with
    /// a new node for `v`.
    pub open spec fn replaces<M: VectorMath>(
        &self,
        math: &M,
        k: Seq<u8>,
        v: Seq<u32>,
        graph: HnswIndex,
    ) -> bool {
        exists|mid: HnswIndex| #[trigger]
            self.drops(math, k, mid) && insert::inserts(math, mid, v, graph)
    }

    /// Vector dimension.
    pub closed spec fn dim(&self) -> Option<usize> {
        self.expected_dim
    }

    /// The node of `k`.
    pub open spec fn node_of(&self, k: Seq<u8>) -> Option<u32> {
        assoc::find(self.keys(), k)
    }

    /// The stored vector of `k`.
    pub open spec fn indexed(&self, k: Seq<u8>) -> Option<Seq<u32>> {
        match self.node_of(k) {
            Some(id) => Some(self.graph().nodes()[id as int].vector),
            None => None,
        }
    }

    /// The two maps are inverse to each other.
    pub open spec fn maps_ok(&self) -> bool {
        &&& assoc::sorted_pairs(self.keys())
        &&& forall|k: Seq<u8>|
            #![trigger self.node_of(k)]
            self.node_of(k) matches Some(id) ==> self.reverse().contains_key(id)
                && self.reverse()[id]@ == k
        &&& forall|id: u32| #[trigger]
            self.reverse().contains_key(id) ==> self.node_of(self.reverse()[id]@) == Some(id)
    }

    /// The graph can be walked, the maps are inverse to each other, and the
    /// nodes that have a key are the live ones.
    pub open spec fn wf(&self) -> bool {
        &&& self.graph().wf()
        &&& self.maps_ok()
        &&& forall|id: u32|
            #![trigger self.reverse().contains_key(id)]
            self.reverse().contains_key(id) <==> graph::is_live(self.graph().nodes(), id as int)
    }

    /// The index can be written to a snapshot: all numbers and lengths fit,
    /// every vector has the dimension of the graph, no list of neighbours is
    /// over its cap, and no key is empty.
    pub open spec fn is_storable(&self) -> bool {
        let g = self.graph();
        let p = g.spec_params();
        &&& p.m <= u32::MAX
        &&& p.m_max_0 <= u32::MAX
        &&& p.ef_construction <= u32::MAX
        &&& p.ef_search <= u32::MAX
        &&& g.spec_dim() <= u32::MAX
        &&& g.spec_dim() == 0 ==> g.nodes().len() == 0
        &&& graph::within_caps(g.nodes(), p)
        &&& forall|i: int|
            0 <= i < g.nodes().len() ==> (#[trigger] g.nodes()[i]).vector.len() == g.spec_dim()
        &&& forall|k: Seq<u8>| #[trigger] self.node_of(k) is Some ==> 0 < k.len() <= u32::MAX
    }

    /// An empty index.
    pub(crate) fn new(params: HnswParams) -> (v: VectorIndex)
        ensures
            v.wf(),
            v.dim() is None,
            v.graph().spec_params() == params,
            v.graph().spec_dim() == params.dim,
            v.graph().nodes().len() == 0,
            v.graph().entry() is None,
            v.graph().spec_draws() == 0,
            forall|k: Seq<u8>| #[trigger] v.node_of(k) is None,
    {
        broadcast use vstd::std_specs::hash::group_hash_axioms;

        VectorIndex {
            hnsw: HnswIndex::new(params),
            key_to_node: KeyMap::new(),
            node_to_key: HashMap::new(),
            expected_dim: None,
        }
    }

    /// Puts the index of a decoded graph together with the keys of its live
    /// nodes.
    pub(crate) fn restore(hnsw: HnswIndex, key_to_node: KeyMap<NodeId>) -> (v: VectorIndex)
        requires
            hnsw.wf(),
            key_to_node.wf(),
            exists|keys: Seq<Seq<u8>>| #[trigger]
                snapshot::keys_match(key_to_node.pairs(), hnsw.nodes(), keys),
        ensures
            v.wf(),
            v.graph() == hnsw,
            v.keys() == key_to_node.pairs(),
            v.dim() == (if hnsw.spec_dim() == 0 {
                None::<usize>
            } else {
                Some(hnsw.spec_dim())
            }),
    {
        broadcast use vstd::std_specs::hash::group_hash_axioms;

        let ghost pairs = key_to_node.pairs();
        let mut node_to_key: HashMap<NodeId, Vec<u8>> = HashMap::new();
        let n = key_to_node.len();
        for i in 0..n
            invariant
                n == pairs.len(),
                pairs == key_to_node.pairs(),
                vstd::std_specs::hash::obeys_key_model::<u32>(),
                vstd::std_specs::hash::builds_valid_hashers::<std::hash::RandomState>(),
                forall|id: u32| #[trigger]
                    node_to_key@.contains_key(id) ==> exists|j: int|
                        0 <= j < i && (#[trigger] pairs[j]).1 == id && pairs[j].0
                            == node_to_key@[id]@,
                forall|j: int| 0 <= j < i ==> node_to_key@.contains_key((#[trigger] pairs[j]).1),
        {
            let id = *key_to_node.value_at(i);
            let ghost before = node_to_key@;
            let key = copy_bytes(key_to_node.key_at(i).as_slice());
            let _old = node_to_key.insert(id, key);
            proof {
                assert forall|o: u32| #[trigger] node_to_key@.contains_key(o) implies exists|j: int|
                    0 <= j < i + 1 && (#[trigger] pairs[j]).1 == o && pairs[j].0
                        == node_to_key@[o]@ by {
                    if o == id {
                        assert(pairs[i as int].1 == o);
                    } else {
                        assert(before.contains_key(o));
                        let j = choose|j: int|
                            0 <= j < i && (#[trigger] pairs[j]).1 == o && pairs[j].0
                                == before[o]@;
                        assert(pairs[j].1 == o);
                    }
                }
            }
        }
        let expected_dim = if hnsw.dim() == 0 {
            None
        } else {
            Some(hnsw.dim())
        };
        let v = VectorIndex { hnsw, key_to_node, node_to_key, expected_dim };
        proof {
            let keys = choose|keys: Seq<Seq<u8>>| #[trigger]
                snapshot::keys_match(pairs, v.graph().nodes(), keys);
            lemma_restore(v, pairs);
        }
        v
    }

    /// Number of live nodes.
    pub(crate) fn live_count(&self) -> (n: usize)
        ensures
            n == graph::live_count(self.graph().nodes()),
    {
        self.hnsw.live_len()
    }

    /// The graph.
    pub(crate) fn hnsw(&self) -> (h: &HnswIndex)
        ensures
            *h == self.graph(),
    {
        &self.hnsw
    }

    /// Vector dimension.
    pub(crate) fn expected_dim(&self) -> (d: Option<usize>)
        ensures
            d == self.dim(),
    {
        self.expected_dim
    }

    /// Sets the vector dimension if it is not established.
    pub(crate) fn establish_dim(&mut self, dim: usize)
        ensures
            final(self).graph() == old(self).graph(),
            final(self).keys() == old(self).keys(),
            final(self).reverse() == old(self).reverse(),
            final(self).dim() == (if old(self).dim() is None {
                Some(dim)
            } else {
                old(self).dim()
            }),
    {
        if self.expected_dim.is_none() {
            self.expected_dim = Some(dim);
        }
    }

    /// A snapshot of the index.
    pub(crate) fn encode(&self, next_sstable_id: u64) -> (b: Vec<u8>)
        ensures
            b@ == snapshot::snapshot_bytes(
                self.graph().snapshot(next_sstable_id, self.keys()),
            ),
    {
        self.hnsw.encode_snapshot(next_sstable_id, &self.key_to_node)
    }

    /// Links `key` and `node_id`, neither of which is linked.
    fn register(&mut self, key: Vec<u8>, node_id: NodeId)
        requires
            old(self).maps_ok(),
            old(self).node_of(key@) is None,
            !old(self).reverse().contains_key(node_id),
        ensures
            final(self).maps_ok(),
            final(self).graph() == old(self).graph(),
            final(self).dim() == old(self).dim(),
            final(self).node_of(key@) == Some(node_id),
            forall|k: Seq<u8>|
                k != key@ ==> #[trigger] final(self).node_of(k) == old(self).node_of(k),
            forall|id: u32| #[trigger]
                final(self).reverse().contains_key(id) <==> id == node_id || old(
                    self,
                ).reverse().contains_key(id),
    {
        broadcast use vstd::std_specs::hash::group_hash_axioms;

        let ghost k0 = key@;
        let copy = copy_bytes(key.as_slice());
        let _none = self.key_to_node.insert(copy, node_id);
        let _old = self.node_to_key.insert(node_id, key);
        proof {
            lemma_register(*old(self), k0, node_id, *self);
        }
    }

    /// Removes the link of `key`; returns its node.
    fn unregister(&mut self, key: &[u8]) -> (r: Option<NodeId>)
        requires
            old(self).maps_ok(),
        ensures
            final(self).maps_ok(),
            final(self).graph() == old(self).graph(),
            final(self).dim() == old(self).dim(),
            r == old(self).node_of(key@),
            final(self).node_of(key@) is None,
            forall|k: Seq<u8>|
                k != key@ ==> #[trigger] final(self).node_of(k) == old(self).node_of(k),
            forall|id: u32| #[trigger]
                final(self).reverse().contains_key(id) <==> Some(id) != r && old(
                    self,
                ).reverse().contains_key(id),
    {
        broadcast use vstd::std_specs::hash::group_hash_axioms;

        match self.key_to_node.remove(key) {
            Some(id) => {
                assert(old(self).node_of(key@) == Some(id));
                let _key = self.node_to_key.remove(&id);
                proof {
                    lemma_unregister(*old(self), key@, id, *self);
                }
                Some(id)
            },
            None => {
                proof {
                    assert forall|k: Seq<u8>| #[trigger] self.node_of(k) == old(self).node_of(
                        k,
                    ) by {
                        assert(assoc::find(self.key_to_node.pairs(), k) == assoc::find(
                            old(self).key_to_node.pairs(),
                            k,
                        ));
                    }
                    assert forall|id: u32| #[trigger] self.reverse().contains_key(id) implies
                        self.node_of(self.reverse()[id]@) == Some(id) by {
                        assert(old(self).reverse().contains_key(id));
                    }
                }
                None
            },
        }
    }

    /// The key of `node_id`.
    pub(crate) fn key_for_node(&self, node_id: NodeId) -> (r: Option<&Vec<u8>>)
        ensures
            match r {
                Some(k) => self.reverse().contains_key(node_id) && self.reverse()[node_id] == *k,
                None => !self.reverse().contains_key(node_id),
            },
    {
        broadcast use vstd::std_specs::hash::group_hash_axioms;

        self.node_to_key.get(&node_id)
    }

    /// Takes `key` out of the index, if it is in it.
    pub(crate) fn remove_key<M: VectorMath>(&mut self, math: &M, key: &[u8])
        requires
            old(self).wf(),
            math.ready(),
        ensures
            final(self).wf(),
            final(self).dim() == old(self).dim(),
            final(self).graph().spec_params() == old(self).graph().spec_params(),
            final(self).graph().spec_dim() == old(self).graph().spec_dim(),
            final(self).graph().nodes().len() == old(self).graph().nodes().len(),
            final(self).indexed(key@) is None,
            forall|k: Seq<u8>|
                k != key@ ==> #[trigger] final(self).indexed(k) == old(self).indexed(k),
            old(self).drops(math, key@, final(self).graph()),
            old(self).rekeys(key@, None, final(self)),
            graph::live_count(old(self).graph().nodes()) == graph::live_count(
                final(self).graph().nodes(),
            ) + (if old(self).indexed(key@) is Some {
                1int
            } else {
                0int
            }),
            old(self).is_storable() ==> final(self).is_storable(),
            graph::entry_leads(old(self).graph().nodes(), old(self).graph().entry())
                ==> graph::entry_leads(final(self).graph().nodes(), final(self).graph().entry()),
    {
        let ghost before = *self;
        match self.unregister(key) {
            Some(id) => {
                assert(before.reverse().contains_key(id));
                let ghost mid = *self;
                let r = self.hnsw.delete(math, id);
                proof {
                    assert(r is Ok);
                    lemma_removed(before, key@, id, mid, *self);
                    assert forall|x: Seq<u8>| #[trigger] self.node_of(x) == (if x == key@ {
                        None
                    } else {
                        before.node_of(x)
                    }) by {
                        assert(mid.node_of(x) == self.node_of(x));
                    }
                }
            },
            None => {
                proof {
                    assert forall|k: Seq<u8>| k != key@ implies #[trigger] self.indexed(k)
                        == before.indexed(k) by {
                        assert(self.node_of(k) == before.node_of(k));
                    }
                    assert forall|id: u32|
                        #![trigger self.reverse().contains_key(id)]
                        self.reverse().contains_key(id) <==> graph::is_live(
                            self.graph().nodes(),
                            id as int,
                        ) by {
                        assert(before.reverse().contains_key(id) <==> graph::is_live(
                            before.graph().nodes(),
                            id as int,
                        ));
                    }
                }
            },
        }
    }

    /// Inserts `vector` for `key`, which is not in the index.
    pub(crate) fn add_key<M: VectorMath>(&mut self, math: &M, key: Vec<u8>, vector: &[u32]) -> (r:
        Result<()>)
        requires
            old(self).wf(),
            math.ready(),
            old(self).node_of(key@) is None,
        ensures
            final(self).wf(),
            final(self).dim() == old(self).dim(),
            final(self).graph().spec_params() == old(self).graph().spec_params(),
            final(self).graph().spec_dim() == (if old(self).graph().spec_dim() == 0 {
                vector@.len() as usize
            } else {
                old(self).graph().spec_dim()
            }),
            match r {
                Ok(_) => {
                    &&& !old(self).graph().refuses_vector(math, vector@)
                    &&& final(self).indexed(key@) == insert::prepared(
                        math,
                        old(self).graph().spec_params().metric,
                        vector@,
                    )
                    &&& final(self).graph().nodes().len() == old(self).graph().nodes().len() + 1
                    &&& graph::live_count(final(self).graph().nodes()) == graph::live_count(
                        old(self).graph().nodes(),
                    ) + 1
                    &&& insert::inserts(math, old(self).graph(), vector@, final(self).graph())
                    &&& old(self).rekeys(
                        key@,
                        Some(old(self).graph().nodes().len() as u32),
                        final(self),
                    )
                },
                Err(e) => {
                    &&& e is InvalidArgument
                    &&& old(self).graph().refuses_vector(math, vector@)
                    &&& final(self).indexed(key@) is None
                    &&& final(self).graph().nodes() == old(self).graph().nodes()
                },
            },
            forall|k: Seq<u8>|
                k != key@ ==> #[trigger] final(self).indexed(k) == old(self).indexed(k),
            old(self).is_storable() && 0 < key@.len() <= u32::MAX && vector@.len() <= u32::MAX
                ==> final(self).is_storable(),
            graph::entry_leads(old(self).graph().nodes(), old(self).graph().entry())
                ==> graph::entry_leads(final(self).graph().nodes(), final(self).graph().entry()),
    {
        let ghost before = *self;
        match self.hnsw.insert(math, vector) {
            Ok(id) => {
                let ghost mid = *self;
                let ghost k0 = key@;
                proof {
                    assert(!graph::is_live(before.graph().nodes(), id as int));
                    assert(!before.reverse().contains_key(id));
                    lemma_maps_same(before, mid);
                }
                self.register(key, id);
                proof {
                    lemma_added(before, k0, id, mid, *self);
                }
                Ok(())
            },
            Err(e) => {
                proof {
                    lemma_maps_same(before, *self);
                    assert forall|k: Seq<u8>| k != key@ implies #[trigger] self.indexed(k)
                        == before.indexed(k) by {
                        assert(self.node_of(k) == before.node_of(k));
                    }
                    assert forall|id: u32|
                        #![trigger self.reverse().contains_key(id)]
                        self.reverse().contains_key(id) <==> graph::is_live(
                            self.graph().nodes(),
                            id as int,
                        ) by {
                        assert(before.reverse().contains_key(id) <==> graph::is_live(
                            before.graph().nodes(),
                            id as int,
                        ));
                    }
                }
                Err(e)
            },
        }
    }
}

proof fn lemma_restore(v: VectorIndex, pairs: Seq<(Seq<u8>, u32)>)
    requires
        v.graph().wf(),
        v.keys() == pairs,
        assoc::sorted_pairs(pairs),
        exists|keys: Seq<Seq<u8>>| #[trigger]
            snapshot::keys_match(pairs, v.graph().nodes(), keys),
        forall|id: u32| #[trigger]
            v.reverse().contains_key(id) ==> exists|j: int|
                0 <= j < pairs.len() && (#[trigger] pairs[j]).1 == id && pairs[j].0
                    == v.reverse()[id]@,
        forall|j: int| 0 <= j < pairs.len() ==> v.reverse().contains_key((#[trigger] pairs[j]).1),
    ensures
        v.wf(),
{
    let nodes = v.graph().nodes();
    let keys = choose|keys: Seq<Seq<u8>>| #[trigger]
        snapshot::keys_match(pairs, nodes, keys);
    assert forall|k: Seq<u8>| #![trigger v.node_of(k)] (v.node_of(k) matches Some(
        id,
    ) ==> v.reverse().contains_key(id) && v.reverse()[id]@ == k) by {
        if v.node_of(k) is Some {
            let id = v.node_of(k)->0;
            assert(assoc::find(pairs, k) == Some(id));
            let i = choose|i: int| 0 <= i < pairs.len() && (#[trigger] pairs[i]).0 == k;
            assoc::lemma_find_at(pairs, i);
            assert(pairs[i].1 == id);
            let j = choose|j: int|
                0 <= j < pairs.len() && (#[trigger] pairs[j]).1 == id && pairs[j].0
                    == v.reverse()[id]@;
            assoc::lemma_find_at(pairs, j);
            assert(assoc::find(pairs, pairs[j].0) == Some(id));
            assert(keys[id as int] == pairs[j].0);
        }
    }
    assert forall|id: u32| #[trigger] v.reverse().contains_key(id) implies v.node_of(
        v.reverse()[id]@,
    ) == Some(id) by {
        let j = choose|j: int|
            0 <= j < pairs.len() && (#[trigger] pairs[j]).1 == id && pairs[j].0
                == v.reverse()[id]@;
        assoc::lemma_find_at(pairs, j);
    }
    assert forall|id: u32|
        #![trigger v.reverse().contains_key(id)]
        v.reverse().contains_key(id) <==> graph::is_live(nodes, id as int) by {
        if v.reverse().contains_key(id) {
            assert(v.node_of(v.reverse()[id]@) == Some(id));
            assert(assoc::find(pairs, v.reverse()[id]@) == Some(id));
        }
        if graph::is_live(nodes, id as int) {
            assert(!nodes[id as int].deleted);
            assert(assoc::find(pairs, keys[id as int]) == Some(id));
            let i = choose|i: int|
                0 <= i < pairs.len() && (#[trigger] pairs[i]).0 == keys[id as int];
            assoc::lemma_find_at(pairs, i);
        }
    }
}

proof fn lemma_register(before: VectorIndex, key: Seq<u8>, id: u32, after: VectorIndex)
    requires
        before.maps_ok(),
        before.node_of(key) is None,
        !before.reverse().contains_key(id),
        assoc::sorted_pairs(after.keys()),
        forall|k: Seq<u8>| #[trigger]
            assoc::find(after.keys(), k) == (if k == key {
                Some(id)
            } else {
                assoc::find(before.keys(), k)
            }),
        exists|v: Vec<u8>|
            v@ == key && after.reverse() == #[trigger] before.reverse().insert(id, v),
    ensures
        after.maps_ok(),
        after.node_of(key) == Some(id),
        forall|k: Seq<u8>| k != key ==> #[trigger] after.node_of(k) == before.node_of(k),
        forall|o: u32| #[trigger]
            after.reverse().contains_key(o) <==> o == id || before.reverse().contains_key(o),
{
    let v = choose|v: Vec<u8>|
        v@ == key && after.reverse() == #[trigger] before.reverse().insert(id, v);
    assert forall|k: Seq<u8>| #![trigger after.node_of(k)] (after.node_of(k) matches Some(
        o,
    ) ==> after.reverse().contains_key(o) && after.reverse()[o]@ == k) by {
        if k != key && after.node_of(k) is Some {
            assert(before.node_of(k) == after.node_of(k));
        }
    }
    assert forall|o: u32| #[trigger] after.reverse().contains_key(o) implies after.node_of(
        after.reverse()[o]@,
    ) == Some(o) by {
        if o != id {
            assert(before.reverse().contains_key(o));
            let k = before.reverse()[o]@;
            assert(before.node_of(k) == Some(o));
            assert(k != key);
        }
    }
}

proof fn lemma_unregister(before: VectorIndex, key: Seq<u8>, id: u32, after: VectorIndex)
    requires
        before.maps_ok(),
        before.node_of(key) == Some(id),
        assoc::sorted_pairs(after.keys()),
        forall|k: Seq<u8>| #[trigger]
            assoc::find(after.keys(), k) == (if k == key {
                None
            } else {
                assoc::find(before.keys(), k)
            }),
        after.reverse() == before.reverse().remove(id),
    ensures
        after.maps_ok(),
        after.node_of(key) is None,
        forall|k: Seq<u8>| k != key ==> #[trigger] after.node_of(k) == before.node_of(k),
        forall|o: u32| #[trigger]
            after.reverse().contains_key(o) <==> o != id && before.reverse().contains_key(o),
{
    assert forall|k: Seq<u8>| #![trigger after.node_of(k)] (after.node_of(k) matches Some(
        o,
    ) ==> after.reverse().contains_key(o) && after.reverse()[o]@ == k) by {
        if k != key && after.node_of(k) is Some {
            let o = after.node_of(k)->0;
            assert(before.node_of(k) == Some(o));
            if o == id {
                assert(before.reverse()[id]@ == k);
                assert(before.reverse()[id]@ == key);
            }
        }
    }
    assert forall|o: u32| #[trigger] after.reverse().contains_key(o) implies after.node_of(
        after.reverse()[o]@,
    ) == Some(o) by {
        assert(before.reverse().contains_key(o));
        let k = before.reverse()[o]@;
        assert(before.node_of(k) == Some(o));
    }
}

/// An index is well-formed whatever dimension is expected of it.
pub(crate) proof fn lemma_same_index(a: VectorIndex, b: VectorIndex)
    requires
        a.wf(),
        b.graph() == a.graph(),
        b.keys() == a.keys(),
        b.reverse() == a.reverse(),
    ensures
        b.wf(),
        forall|k: Seq<u8>| #[trigger] b.node_of(k) == a.node_of(k),
        forall|k: Seq<u8>| #[trigger] b.indexed(k) == a.indexed(k),
{
    lemma_maps_same(a, b);
    assert forall|id: u32|
        #![trigger b.reverse().contains_key(id)]
        b.reverse().contains_key(id) <==> graph::is_live(b.graph().nodes(), id as int) by {
        assert(a.reverse().contains_key(id) <==> graph::is_live(a.graph().nodes(), id as int));
    }
    assert forall|k: Seq<u8>| #[trigger] b.indexed(k) == a.indexed(k) by {
        assert(b.node_of(k) == a.node_of(k));
    }
}

/// The maps do not depend on the graph.
proof fn lemma_maps_same(a: VectorIndex, b: VectorIndex)
    requires
        a.maps_ok(),
        b.keys() == a.keys(),
        b.reverse() == a.reverse(),
    ensures
        b.maps_ok(),
        forall|k: Seq<u8>| #[trigger] b.node_of(k) == a.node_of(k),
{
    assert forall|k: Seq<u8>| #![trigger b.node_of(k)] (b.node_of(k) matches Some(
        id,
    ) ==> b.reverse().contains_key(id) && b.reverse()[id]@ == k) by {
        assert(a.node_of(k) == b.node_of(k));
    }
    assert forall|id: u32| #[trigger] b.reverse().contains_key(id) implies b.node_of(
        b.reverse()[id]@,
    ) == Some(id) by {
        assert(a.reverse().contains_key(id));
        assert(a.node_of(a.reverse()[id]@) == Some(id));
    }
}

proof fn lemma_removed(
    before: VectorIndex,
    key: Seq<u8>,
    id: u32,
    mid: VectorIndex,
    after: VectorIndex,
)
    requires
        before.wf(),
        before.node_of(key) == Some(id),
        mid.maps_ok(),
        mid.node_of(key) is None,
        forall|k: Seq<u8>| k != key ==> #[trigger] mid.node_of(k) == before.node_of(k),
        forall|o: u32| #[trigger]
            mid.reverse().contains_key(o) <==> Some(o) != Some(id) && before.reverse().contains_key(
                o,
            ),
        after.keys() == mid.keys(),
        after.reverse() == mid.reverse(),
        after.graph().wf(),
        delete::kept(
            delete::marked(before.graph().nodes(), id as int),
            after.graph().nodes(),
            id,
        ),
        graph::is_live(before.graph().nodes(), id as int),
    ensures
        after.wf(),
        after.indexed(key) is None,
        forall|k: Seq<u8>| k != key ==> #[trigger] after.indexed(k) == before.indexed(k),
        after.graph().nodes().len() == before.graph().nodes().len(),
{
    let dead = delete::marked(before.graph().nodes(), id as int);
    let nodes = after.graph().nodes();
    lemma_maps_same(mid, after);
    assert forall|o: u32|
        #![trigger after.reverse().contains_key(o)]
        after.reverse().contains_key(o) <==> graph::is_live(nodes, o as int) by {
        assert(mid.reverse().contains_key(o) <==> Some(o) != Some(id)
            && before.reverse().contains_key(o));
        assert(before.reverse().contains_key(o) <==> graph::is_live(
            before.graph().nodes(),
            o as int,
        ));
        if o < nodes.len() {
            assert(nodes[o as int].deleted == dead[o as int].deleted);
        }
    }
    assert forall|k: Seq<u8>| k != key implies #[trigger] after.indexed(k) == before.indexed(k) by {
        assert(after.node_of(k) == mid.node_of(k));
        assert(mid.node_of(k) == before.node_of(k));
        if before.node_of(k) is Some {
            let o = before.node_of(k)->0;
            assert(before.reverse().contains_key(o));
            assert(graph::is_live(before.graph().nodes(), o as int));
            assert(nodes[o as int].vector == dead[o as int].vector);
        }
    }
}

proof fn lemma_added(
    before: VectorIndex,
    key: Seq<u8>,
    id: u32,
    mid: VectorIndex,
    after: VectorIndex,
)
    requires
        before.wf(),
        before.node_of(key) is None,
        mid.keys() == before.keys(),
        mid.reverse() == before.reverse(),
        mid.graph().wf(),
        id == before.graph().nodes().len(),
        mid.graph().nodes().len() == before.graph().nodes().len() + 1,
        !mid.graph().nodes()[id as int].deleted,
        forall|i: int|
            0 <= i < before.graph().nodes().len() ==> {
                &&& (#[trigger] mid.graph().nodes()[i]).vector == before.graph().nodes()[i].vector
                &&& mid.graph().nodes()[i].deleted == before.graph().nodes()[i].deleted
                &&& mid.graph().nodes()[i].layers.len()
                    == before.graph().nodes()[i].layers.len()
            },
        after.maps_ok(),
        after.graph() == mid.graph(),
        after.node_of(key) == Some(id),
        forall|k: Seq<u8>| k != key ==> #[trigger] after.node_of(k) == mid.node_of(k),
        forall|o: u32| #[trigger]
            after.reverse().contains_key(o) <==> o == id || mid.reverse().contains_key(o),
    ensures
        after.wf(),
        after.indexed(key) == Some(mid.graph().nodes()[id as int].vector),
        forall|k: Seq<u8>| k != key ==> #[trigger] after.indexed(k) == before.indexed(k),
{
    let nodes = after.graph().nodes();
    assert forall|o: u32|
        #![trigger after.reverse().contains_key(o)]
        after.reverse().contains_key(o) <==> graph::is_live(nodes, o as int) by {
        assert(before.reverse().contains_key(o) <==> graph::is_live(
            before.graph().nodes(),
            o as int,
        ));
        assert(after.reverse().contains_key(o) <==> o == id || mid.reverse().contains_key(o));
        if o < before.graph().nodes().len() {
            assert(nodes[o as int].deleted == before.graph().nodes()[o as int].deleted);
        }
    }
    assert forall|k: Seq<u8>| k != key implies #[trigger] after.indexed(k) == before.indexed(k) by {
        assert(after.node_of(k) == mid.node_of(k));
        assert(mid.node_of(k) == before.node_of(k));
        if before.node_of(k) is Some {
            let o = before.node_of(k)->0;
            assert(before.reverse().contains_key(o));
            assert(graph::is_live(before.graph().nodes(), o as int));
            assert(nodes[o as int].vector == before.graph().nodes()[o as int].vector);
        }
    }
}

} // verus!
