//! Engine configuration.

use crate::hnsw::{DistanceMetric, HnswParams};
use vstd::prelude::*;

verus! {

/// Engine configuration.
#[derive(Debug, Clone)]
pub struct Options {
    /// The directory of the engine.
    pub path: String,
    /// The memtable is flushed once it has this many bytes.
    pub memtable_max_size_bytes: usize,
    /// The levels are compacted once the top level has this many tables.
    pub l0_compaction_trigger: usize,
    /// Bits per key of the Bloom filter of a table; 0 for none.
    pub bloom_bits_per_key: u32,
    /// Parameters of the vector index.
    pub hnsw_params: HnswParams,
}

impl Options {
    /// The defaults, with the directory `path`.
    pub fn new(path: String) -> (o: Options)
        ensures
            o.path == path,
            o.memtable_max_size_bytes == 4 * 1024 * 1024,
            o.l0_compaction_trigger == 4,
            o.bloom_bits_per_key == 10,
            o.hnsw_params == (HnswParams {
                metric: DistanceMetric::Cosine,
                m: 16,
                m_max_0: 32,
                ef_construction: 100,
                ef_search: 50,
                dim: 0,
                seed: 0x00C0_FFEE_BABE,
            }),
    {
        Options {
            path,
            memtable_max_size_bytes: 4194304,
            l0_compaction_trigger: 4,
            bloom_bits_per_key: 10,
            hnsw_params: HnswParams::default(),
        }
    }
}

} // verus!
