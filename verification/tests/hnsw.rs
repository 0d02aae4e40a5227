//! The index: inserts, searches, deletes and snapshots.

use rand::rngs::{SmallRng, StdRng};
use rand::{Rng, SeedableRng};
use sastran::hnsw::float::is_below;
use sastran::hnsw::math::VectorFns;
use sastran::hnsw::{DistanceMetric, HnswIndex, HnswParams, NodeId};
use sastran::keymap::KeyMap;
use sastran::{Error, Result};
use std::cell::RefCell;
use std::collections::HashSet;

fn bits(v: &[f32]) -> Vec<u32> {
    v.iter().map(|x| x.to_bits()).collect()
}

fn floats(v: &[u32]) -> Vec<f32> {
    v.iter().map(|x| f32::from_bits(*x)).collect()
}

fn distance_cosine(a: &[f32], b: &[f32]) -> f32 {
    1.0 - a.iter().zip(b).map(|(x, y)| x * y).sum::<f32>()
}

fn distance_for_metric(metric: DistanceMetric, a: &[f32], b: &[f32]) -> f32 {
    match metric {
        DistanceMetric::Cosine => distance_cosine(a, b),
        DistanceMetric::EuclideanSquared => a.iter().zip(b).map(|(x, y)| (x - y) * (x - y)).sum(),
        DistanceMetric::InnerProduct => -a.iter().zip(b).map(|(x, y)| x * y).sum::<f32>(),
    }
}

fn normalize(v: &[f32]) -> Option<Vec<f32>> {
    let norm: f32 = v.iter().map(|x| x * x).sum::<f32>().sqrt();
    if norm == 0.0 || !norm.is_finite() {
        return None;
    }
    Some(v.iter().map(|x| x / norm).collect())
}

fn preprocess_vector(metric: DistanceMetric, v: &[f32]) -> Option<Vec<f32>> {
    match metric {
        DistanceMetric::Cosine => normalize(v),
        _ => v.iter().all(|x| x.is_finite()).then_some(v.to_vec()),
    }
}

fn distance_of_bits(metric: DistanceMetric, a: &[u32], b: &[u32]) -> u32 {
    let pairs = a.iter().zip(b).map(|(x, y)| (f32::from_bits(*x), f32::from_bits(*y)));
    let d: f32 = match metric {
        DistanceMetric::Cosine => 1.0 - pairs.map(|(x, y)| x * y).sum::<f32>(),
        DistanceMetric::EuclideanSquared => pairs.map(|(x, y)| (x - y) * (x - y)).sum(),
        DistanceMetric::InnerProduct => -pairs.map(|(x, y)| x * y).sum::<f32>(),
    };
    d.to_bits()
}

fn unit_bits(v: &[u32]) -> Option<Vec<u32>> {
    normalize(&floats(v)).map(|u| bits(&u))
}

type DistanceFn = fn(DistanceMetric, &[u32], &[u32]) -> u32;
type UnitFn = fn(&[u32]) -> Option<Vec<u32>>;
type LevelFn = Box<dyn Fn(u64, usize, u64) -> u8>;

/// Levels with a geometric distribution, drawn from one seeded generator.
fn levels() -> LevelFn {
    let drawn: RefCell<Option<(u64, SmallRng, Vec<f64>)>> = RefCell::new(None);
    Box::new(move |seed, m, draw| {
        let mut state = drawn.borrow_mut();
        if state.as_ref().map(|s| s.0) != Some(seed) {
            *state = Some((seed, SmallRng::seed_from_u64(seed), Vec::new()));
        }
        let (_, rng, samples) = state.as_mut().unwrap();
        while samples.len() as u64 <= draw {
            samples.push(rng.gen_range(f64::EPSILON..1.0));
        }
        let ml = 1.0 / (m as f64).ln();
        let level = (-samples[draw as usize].ln() * ml).floor() as i64;
        level.clamp(0, 30) as u8
    })
}

/// An index on floats.
struct Index {
    hnsw: HnswIndex,
    math: VectorFns<DistanceFn, UnitFn, LevelFn>,
}

impl Index {
    fn of(hnsw: HnswIndex) -> Index {
        let math = VectorFns {
            distance: distance_of_bits as DistanceFn,
            normalize: unit_bits as UnitFn,
            level: levels(),
        };
        Index { hnsw, math }
    }

    fn new(params: HnswParams) -> Index {
        Index::of(HnswIndex::new(params))
    }

    fn insert(&mut self, v: &[f32]) -> Result<NodeId> {
        self.hnsw.insert(&self.math, &bits(v))
    }

    fn delete(&mut self, id: NodeId) -> Result<()> {
        self.hnsw.delete(&self.math, id)
    }

    fn search(&self, q: &[f32], k: usize) -> Result<Vec<(NodeId, f32)>> {
        let found = self.hnsw.search(&self.math, &bits(q), k)?;
        Ok(found.into_iter().map(|(id, d)| (id, f32::from_bits(d))).collect())
    }

    fn is_deleted(&self, id: NodeId) -> bool {
        self.hnsw.is_deleted(id)
    }

    fn len(&self) -> usize {
        self.hnsw.len()
    }

    fn is_empty(&self) -> bool {
        self.hnsw.is_empty()
    }

    fn live_len(&self) -> usize {
        self.hnsw.live_len()
    }

    fn dim(&self) -> usize {
        self.hnsw.dim()
    }

    fn metric(&self) -> DistanceMetric {
        self.hnsw.metric()
    }

    /// Where a search starts, as a snapshot holds it.
    fn entry(&self) -> Option<NodeId> {
        let bytes = self.encode_snapshot(0, &synth_keys_for_index(self));
        if bytes[61] == 0 {
            return None;
        }
        Some(u32::from_le_bytes([bytes[62], bytes[63], bytes[64], bytes[65]]))
    }

    fn encode_snapshot(&self, next_sstable_id: u64, keys: &KeyMap<NodeId>) -> Vec<u8> {
        self.hnsw.encode_snapshot(next_sstable_id, keys)
    }

    fn decode_snapshot(bytes: &[u8]) -> Result<(Index, KeyMap<NodeId>, u64)> {
        let (hnsw, keys, next_id) = HnswIndex::decode_snapshot(bytes)?;
        Ok((Index::of(hnsw), keys, next_id))
    }
}

fn random_unit_vector(rng: &mut StdRng, dim: usize) -> Vec<f32> {
    let v: Vec<f32> = (0..dim).map(|_| rng.gen_range(-1.0..1.0)).collect();
    normalize(&v).unwrap()
}

/// Brute-force baseline for recall measurement.
fn brute_force_topk(
    metric: DistanceMetric,
    query: &[f32],
    dataset: &[Vec<f32>],
    k: usize,
) -> Vec<usize> {
    let q = preprocess_vector(metric, query).unwrap();
    let mut dists: Vec<(usize, f32)> = dataset
        .iter()
        .map(|v| preprocess_vector(metric, v).unwrap())
        .enumerate()
        .map(|(i, v)| (i, distance_for_metric(metric, &q, &v)))
        .collect();
    dists.sort_by(|a, b| a.1.partial_cmp(&b.1).unwrap());
    dists.into_iter().take(k).map(|(i, _)| i).collect()
}

/// Keys `node_0`, `node_1`, ... for the live nodes.
fn synth_keys_for_index(idx: &Index) -> KeyMap<NodeId> {
    let mut keys = KeyMap::new();
    for id in 0..idx.len() as NodeId {
        if !idx.is_deleted(id) {
            keys.insert(format!("node_{id}").into_bytes(), id);
        }
    }
    keys
}

#[test]
fn empty_search_returns_empty() {
    let idx = Index::new(HnswParams::default());
    let result = idx.search(&[1.0, 0.0, 0.0], 10).unwrap();
    assert!(result.is_empty());
}

#[test]
fn search_with_k_zero_returns_empty() {
    let mut idx = Index::new(HnswParams::default());
    idx.insert(&[1.0, 0.0, 0.0]).unwrap();
    let result = idx.search(&[1.0, 0.0, 0.0], 0).unwrap();
    assert!(result.is_empty());
}

#[test]
fn rejects_zero_norm_vector() {
    let mut idx = Index::new(HnswParams::default());
    let err = idx.insert(&[0.0, 0.0, 0.0]).unwrap_err();
    assert!(matches!(err, Error::InvalidArgument(_)));
}

#[test]
fn rejects_dimension_mismatch() {
    let mut idx = Index::new(HnswParams::default());
    idx.insert(&[1.0, 0.0, 0.0]).unwrap();
    let err = idx.insert(&[1.0, 0.0]).unwrap_err();
    assert!(matches!(err, Error::InvalidArgument(_)));
}

#[test]
fn single_vector_search_returns_itself() {
    let mut idx = Index::new(HnswParams::default());
    let id = idx.insert(&[1.0, 0.0, 0.0]).unwrap();
    let result = idx.search(&[1.0, 0.0, 0.0], 1).unwrap();
    assert_eq!(result.len(), 1);
    assert_eq!(result[0].0, id);
    assert!(result[0].1.abs() < 1e-6, "self-distance should be ~0");
}

#[test]
fn two_vectors_search_orders_by_distance() {
    let mut idx = Index::new(HnswParams::default());
    let near = idx.insert(&[1.0, 0.01, 0.0]).unwrap();
    let far = idx.insert(&[0.0, 1.0, 0.0]).unwrap();
    let result = idx.search(&[1.0, 0.0, 0.0], 2).unwrap();
    assert_eq!(result.len(), 2);
    assert_eq!(result[0].0, near);
    assert_eq!(result[1].0, far);
}

#[test]
fn recall_at_10_on_synthetic_data() {
    // 1000 random vectors of dimension 16. Build index, then query
    // 100 random points. Compute recall@10 against brute force.
    let mut rng = StdRng::seed_from_u64(42);
    let dim = 16;
    let n = 1000;
    let dataset: Vec<Vec<f32>> = (0..n)
        .map(|_| random_unit_vector(&mut rng, dim))
        .collect();
    let mut idx = Index::new(HnswParams::default());
    let ids: Vec<NodeId> = dataset
        .iter()
        .map(|v| idx.insert(v).unwrap())
        .collect();

    let queries: Vec<Vec<f32>> = (0..100)
        .map(|_| random_unit_vector(&mut rng, dim))
        .collect();

    let mut total_recall = 0.0;
    for q in &queries {
        let truth: Vec<usize> = brute_force_topk(DistanceMetric::Cosine, q, &dataset, 10);
        let truth_ids: HashSet<NodeId> =
            truth.iter().map(|&i| ids[i]).collect();
        let predicted = idx.search(q, 10).unwrap();
        let hits = predicted
            .iter()
            .filter(|(id, _)| truth_ids.contains(id))
            .count();
        total_recall += hits as f64 / 10.0;
    }
    let recall_at_10 = total_recall / queries.len() as f64;
    assert!(
        recall_at_10 > 0.90,
        "recall@10 = {recall_at_10:.3}, expected > 0.90"
    );
}

#[test]
fn recall_at_10_on_larger_dataset() {
    // 5000 vectors of dimension 32 — larger, harder.
    let mut rng = StdRng::seed_from_u64(7);
    let dim = 32;
    let n = 5000;
    let dataset: Vec<Vec<f32>> = (0..n)
        .map(|_| random_unit_vector(&mut rng, dim))
        .collect();
    let mut idx = Index::new(HnswParams::default());
    let ids: Vec<NodeId> = dataset
        .iter()
        .map(|v| idx.insert(v).unwrap())
        .collect();

    let queries: Vec<Vec<f32>> = (0..50)
        .map(|_| random_unit_vector(&mut rng, dim))
        .collect();

    let mut total_recall = 0.0;
    for q in &queries {
        let truth: Vec<usize> = brute_force_topk(DistanceMetric::Cosine, q, &dataset, 10);
        let truth_ids: HashSet<NodeId> =
            truth.iter().map(|&i| ids[i]).collect();
        let predicted = idx.search(q, 10).unwrap();
        let hits = predicted
            .iter()
            .filter(|(id, _)| truth_ids.contains(id))
            .count();
        total_recall += hits as f64 / 10.0;
    }
    let recall_at_10 = total_recall / queries.len() as f64;
    assert!(
        recall_at_10 > 0.85,
        "recall@10 = {recall_at_10:.3}, expected > 0.85"
    );
}

#[test]
fn insert_returns_sequential_ids() {
    let mut idx = Index::new(HnswParams::default());
    let ids: Vec<NodeId> = (0..50)
        .map(|i| {
            let mut v = vec![0.0f32; 8];
            v[i % 8] = 1.0;
            idx.insert(&v).unwrap()
        })
        .collect();
    for (i, id) in ids.iter().enumerate() {
        assert_eq!(*id as usize, i);
    }
}

#[test]
fn params_dim_override_takes_precedence() {
    let params = HnswParams {
        dim: 4,
        ..Default::default()
    };
    let mut idx = Index::new(params);
    // First insert must match the configured dim.
    let err = idx.insert(&[1.0, 0.0, 0.0]).unwrap_err();
    assert!(matches!(err, Error::InvalidArgument(_)));
    // Correct dimension works.
    idx.insert(&[1.0, 0.0, 0.0, 0.0]).unwrap();
}

#[test]
fn delete_makes_node_unreachable_by_search() {
    let mut idx = Index::new(HnswParams::default());
    let id_a = idx.insert(&[1.0, 0.0, 0.0]).unwrap();
    let id_b = idx.insert(&[0.0, 1.0, 0.0]).unwrap();
    let id_c = idx.insert(&[0.0, 0.0, 1.0]).unwrap();

    // Before delete: query for ~A should return A.
    let before = idx.search(&[1.0, 0.0, 0.0], 3).unwrap();
    assert!(before.iter().any(|(id, _)| *id == id_a));

    idx.delete(id_a).unwrap();
    assert!(idx.is_deleted(id_a));
    assert!(!idx.is_deleted(id_b));
    assert!(!idx.is_deleted(id_c));

    // After delete: A no longer appears in results.
    let after = idx.search(&[1.0, 0.0, 0.0], 3).unwrap();
    assert!(
        !after.iter().any(|(id, _)| *id == id_a),
        "deleted node should not appear in search results"
    );
}

#[test]
fn delete_updates_live_len() {
    let mut idx = Index::new(HnswParams::default());
    let ids: Vec<NodeId> = (0..10)
        .map(|i| {
            let mut v = vec![0.0f32; 8];
            v[i % 8] = 1.0;
            idx.insert(&v).unwrap()
        })
        .collect();
    assert_eq!(idx.live_len(), 10);
    assert_eq!(idx.len(), 10);

    idx.delete(ids[3]).unwrap();
    idx.delete(ids[7]).unwrap();
    assert_eq!(idx.live_len(), 8);
    assert_eq!(idx.len(), 10, "arena size unchanged by soft-delete");
}

#[test]
fn delete_rejects_out_of_range() {
    let mut idx = Index::new(HnswParams::default());
    idx.insert(&[1.0, 0.0, 0.0]).unwrap();
    let err = idx.delete(999).unwrap_err();
    assert!(matches!(err, Error::InvalidArgument(_)));
}

#[test]
fn delete_rejects_already_deleted() {
    let mut idx = Index::new(HnswParams::default());
    let id = idx.insert(&[1.0, 0.0, 0.0]).unwrap();
    idx.delete(id).unwrap();
    let err = idx.delete(id).unwrap_err();
    assert!(matches!(err, Error::InvalidArgument(_)));
}

#[test]
fn delete_all_nodes_leaves_searchable_empty() {
    let mut idx = Index::new(HnswParams::default());
    let ids: Vec<NodeId> = (0..5)
        .map(|i| {
            let mut v = vec![0.0f32; 4];
            v[i % 4] = 1.0;
            idx.insert(&v).unwrap()
        })
        .collect();
    for id in ids {
        idx.delete(id).unwrap();
    }
    assert_eq!(idx.live_len(), 0);
    // Search returns empty; should not panic.
    let result = idx.search(&[1.0, 0.0, 0.0, 0.0], 5).unwrap();
    assert!(result.is_empty());
}

#[test]
fn delete_entry_point_migrates_to_replacement() {
    let mut idx = Index::new(HnswParams::default());
    let ids: Vec<NodeId> = (0..20)
        .map(|i| {
            let mut v = vec![0.0f32; 8];
            v[i % 8] = (i as f32) * 0.1 + 0.5;
            idx.insert(&v).unwrap()
        })
        .collect();

    // Find current entry and delete it.
    let entry_id = idx.entry().unwrap();
    idx.delete(entry_id).unwrap();

    // A new entry should exist among the surviving nodes.
    let new_entry = idx.entry().expect("entry should re-materialize");
    assert!(!idx.is_deleted(new_entry));
    assert!(ids.contains(&new_entry));

    // Search still works.
    let q = vec![0.5f32; 8];
    let r = idx.search(&q, 5).unwrap();
    assert!(!r.is_empty());
    // No deleted ids in results.
    for (id, _) in &r {
        assert!(!idx.is_deleted(*id));
    }
}

#[test]
fn recall_holds_after_many_deletes() {
    // Build a 2000-vector index. Delete a random 30%. Verify
    // recall@10 on remaining queries is still acceptable.
    let mut rng = StdRng::seed_from_u64(17);
    let dim = 16;
    let n = 2000;
    let dataset: Vec<Vec<f32>> = (0..n)
        .map(|_| random_unit_vector(&mut rng, dim))
        .collect();
    let mut idx = Index::new(HnswParams::default());
    let ids: Vec<NodeId> = dataset
        .iter()
        .map(|v| idx.insert(v).unwrap())
        .collect();

    // Delete 30%.
    let n_delete = (n * 3) / 10;
    let mut delete_indices: Vec<usize> = (0..n).collect();
    delete_indices.truncate(n_delete);
    for di in &delete_indices {
        idx.delete(ids[*di]).unwrap();
    }

    // Build the surviving set for brute-force baseline.
    let deleted: HashSet<usize> =
        delete_indices.iter().copied().collect();
    let survivors: Vec<(usize, &Vec<f32>)> = dataset
        .iter()
        .enumerate()
        .filter(|(i, _)| !deleted.contains(i))
        .collect();

    let queries: Vec<Vec<f32>> = (0..50)
        .map(|_| random_unit_vector(&mut rng, dim))
        .collect();

    let mut total_recall = 0.0;
    for q in &queries {
        let qn = normalize(q).unwrap();
        // Brute-force top-10 among survivors.
        let mut dists: Vec<(NodeId, f32)> = survivors
            .iter()
            .map(|(orig_i, v)| (ids[*orig_i], distance_cosine(&qn, v)))
            .collect();
        dists.sort_by(|a, b| a.1.partial_cmp(&b.1).unwrap());
        let truth: HashSet<NodeId> =
            dists.iter().take(10).map(|(id, _)| *id).collect();

        let predicted = idx.search(q, 10).unwrap();
        let hits = predicted.iter().filter(|(id, _)| truth.contains(id)).count();
        total_recall += hits as f64 / 10.0;
    }
    let recall = total_recall / queries.len() as f64;
    assert!(
        recall > 0.80,
        "post-delete recall@10 = {recall:.3}, expected > 0.80"
    );
}

#[test]
fn insert_after_delete_works() {
    let mut idx = Index::new(HnswParams::default());
    let id_a = idx.insert(&[1.0, 0.0, 0.0]).unwrap();
    idx.delete(id_a).unwrap();
    // Should still accept new inserts. The new id will be id_a + 1
    // (we don't reuse slots in this version).
    let id_b = idx.insert(&[0.0, 1.0, 0.0]).unwrap();
    assert_eq!(id_b, id_a + 1);
    assert_eq!(idx.live_len(), 1);

    let r = idx.search(&[0.0, 1.0, 0.0], 1).unwrap();
    assert_eq!(r.len(), 1);
    assert_eq!(r[0].0, id_b);
}

#[test]
fn delete_then_insert_then_delete_pattern() {
    // Stress: alternating inserts and deletes shouldn't degrade.
    let mut rng = StdRng::seed_from_u64(99);
    let dim = 8;
    let mut idx = Index::new(HnswParams::default());
    let mut live_ids: Vec<NodeId> = Vec::new();
    for cycle in 0..100 {
        // Insert 5.
        for _ in 0..5 {
            let v = random_unit_vector(&mut rng, dim);
            live_ids.push(idx.insert(&v).unwrap());
        }
        // Delete 2 random ones.
        if cycle > 0 && live_ids.len() > 2 {
            for _ in 0..2 {
                let idx_pick = rng.gen_range(0..live_ids.len());
                let id = live_ids.swap_remove(idx_pick);
                idx.delete(id).unwrap();
            }
        }
    }
    // After 100 cycles: ~300 live nodes. Sanity: search succeeds
    // and returns only live ones.
    let q = random_unit_vector(&mut rng, dim);
    let r = idx.search(&q, 10).unwrap();
    for (id, _) in &r {
        assert!(!idx.is_deleted(*id), "search returned deleted id {id}");
        assert!(live_ids.contains(id), "search returned unknown id {id}");
    }
}

#[test]
fn euclidean_metric_returns_correct_ordering() {
    // Three points on a line. Query close to origin.
    let params = HnswParams {
        metric: DistanceMetric::EuclideanSquared,
        ..Default::default()
    };
    let mut idx = Index::new(params);
    let id_close = idx.insert(&[0.1, 0.0]).unwrap();
    let id_mid = idx.insert(&[1.0, 0.0]).unwrap();
    let id_far = idx.insert(&[10.0, 0.0]).unwrap();

    let r = idx.search(&[0.0, 0.0], 3).unwrap();
    assert_eq!(r.len(), 3);
    assert_eq!(r[0].0, id_close);
    assert_eq!(r[1].0, id_mid);
    assert_eq!(r[2].0, id_far);
    // Returned values are squared distances.
    assert!((r[0].1 - 0.01).abs() < 1e-5);
    assert!((r[1].1 - 1.0).abs() < 1e-5);
    assert!((r[2].1 - 100.0).abs() < 1e-3);
}

#[test]
fn inner_product_metric_favors_larger_magnitudes() {
    // Two vectors with the same direction but different magnitudes.
    // Inner product against a query in the same direction prefers
    // the larger one.
    let params = HnswParams {
        metric: DistanceMetric::InnerProduct,
        ..Default::default()
    };
    let mut idx = Index::new(params);
    let id_small = idx.insert(&[1.0, 0.0, 0.0]).unwrap();
    let id_large = idx.insert(&[10.0, 0.0, 0.0]).unwrap();

    let r = idx.search(&[1.0, 0.0, 0.0], 2).unwrap();
    assert_eq!(r.len(), 2);
    // Larger magnitude = higher inner product = smaller (more
    // negative) score under the negated convention.
    assert_eq!(r[0].0, id_large, "larger magnitude should rank first");
    assert_eq!(r[1].0, id_small);
    // Scores are negated dot products: -10 and -1 respectively.
    assert!((r[0].1 - (-10.0)).abs() < 1e-5);
    assert!((r[1].1 - (-1.0)).abs() < 1e-5);
}

#[test]
fn euclidean_accepts_unprocessed_vectors() {
    // The Euclidean code path must NOT reject non-unit vectors.
    let params = HnswParams {
        metric: DistanceMetric::EuclideanSquared,
        ..Default::default()
    };
    let mut idx = Index::new(params);
    idx.insert(&[100.0, 0.0]).unwrap();
    idx.insert(&[0.0, 100.0]).unwrap();
    let r = idx.search(&[50.0, 50.0], 2).unwrap();
    assert_eq!(r.len(), 2);
}

#[test]
fn rejects_non_finite_under_any_metric() {
    for metric in [
        DistanceMetric::Cosine,
        DistanceMetric::EuclideanSquared,
        DistanceMetric::InnerProduct,
    ] {
        let params = HnswParams {
            metric,
            ..Default::default()
        };
        let mut idx = Index::new(params);
        // NaN should be rejected.
        let err = idx.insert(&[f32::NAN, 0.0]).unwrap_err();
        assert!(
            matches!(err, Error::InvalidArgument(_)),
            "metric {metric:?} should reject NaN: got {err:?}"
        );
        // Infinity too.
        let err = idx.insert(&[f32::INFINITY, 0.0]).unwrap_err();
        assert!(
            matches!(err, Error::InvalidArgument(_)),
            "metric {metric:?} should reject infinity: got {err:?}"
        );
    }
}

#[test]
fn metric_is_exposed_on_index() {
    let params = HnswParams {
        metric: DistanceMetric::EuclideanSquared,
        ..Default::default()
    };
    let idx = Index::new(params);
    assert_eq!(idx.metric(), DistanceMetric::EuclideanSquared);
}

#[test]
fn recall_at_10_under_euclidean_metric() {
    // Same recall test as cosine, but with Euclidean. The graph
    // topology is different but recall should still be high.
    let mut rng = StdRng::seed_from_u64(123);
    let dim = 16;
    let n = 1000;
    // Unprocessed random vectors — Euclidean preserves magnitude.
    let dataset: Vec<Vec<f32>> = (0..n)
        .map(|_| {
            (0..dim)
                .map(|_| rng.gen_range(-1.0..1.0_f32))
                .collect::<Vec<f32>>()
        })
        .collect();
    let params = HnswParams {
        metric: DistanceMetric::EuclideanSquared,
        ..Default::default()
    };
    let mut idx = Index::new(params);
    let ids: Vec<NodeId> = dataset
        .iter()
        .map(|v| idx.insert(v).unwrap())
        .collect();

    let queries: Vec<Vec<f32>> = (0..50)
        .map(|_| {
            (0..dim)
                .map(|_| rng.gen_range(-1.0..1.0_f32))
                .collect::<Vec<f32>>()
        })
        .collect();

    let mut total_recall = 0.0;
    for q in &queries {
        let truth: Vec<usize> =
            brute_force_topk(DistanceMetric::EuclideanSquared, q, &dataset, 10);
        let truth_ids: HashSet<NodeId> =
            truth.iter().map(|&i| ids[i]).collect();
        let predicted = idx.search(q, 10).unwrap();
        let hits = predicted.iter().filter(|(id, _)| truth_ids.contains(id)).count();
        total_recall += hits as f64 / 10.0;
    }
    let recall = total_recall / queries.len() as f64;
    assert!(
        recall > 0.85,
        "Euclidean recall@10 = {recall:.3}, expected > 0.85"
    );
}

#[test]
fn snapshot_round_trip_empty_index() {
    let idx = Index::new(HnswParams::default());
    let bytes = idx.encode_snapshot(0, &synth_keys_for_index(&idx));
    let (restored, _keys, _) = Index::decode_snapshot(&bytes).unwrap();
    assert!(restored.is_empty());
    assert_eq!(restored.metric(), DistanceMetric::Cosine);
}

#[test]
fn snapshot_round_trip_with_nodes() {
    let mut rng = StdRng::seed_from_u64(101);
    let dim = 16;
    let n = 200;
    let mut idx = Index::new(HnswParams::default());
    let mut originals = Vec::new();
    for _ in 0..n {
        let v = random_unit_vector(&mut rng, dim);
        idx.insert(&v).unwrap();
        originals.push(v);
    }

    let bytes = idx.encode_snapshot(0, &synth_keys_for_index(&idx));
    let (restored, _keys, _) = Index::decode_snapshot(&bytes).unwrap();

    assert_eq!(restored.len(), n);
    assert_eq!(restored.live_len(), n);
    assert_eq!(restored.dim(), dim);

    // Search results should match between original and restored
    // for the same query. Both indexes use the same RNG seed so
    // even the level assignments are identical.
    for _ in 0..10 {
        let q = random_unit_vector(&mut rng, dim);
        let r_orig = idx.search(&q, 5).unwrap();
        let r_rest = restored.search(&q, 5).unwrap();
        assert_eq!(
            r_orig, r_rest,
            "restored search results diverge from original"
        );
    }
}

#[test]
fn snapshot_preserves_deletes() {
    let mut rng = StdRng::seed_from_u64(7);
    let dim = 8;
    let mut idx = Index::new(HnswParams::default());
    let ids: Vec<NodeId> = (0..50)
        .map(|_| idx.insert(&random_unit_vector(&mut rng, dim)).unwrap())
        .collect();
    // Delete every third.
    for id in ids.iter().step_by(3) {
        idx.delete(*id).unwrap();
    }

    let bytes = idx.encode_snapshot(0, &synth_keys_for_index(&idx));
    let (restored, _keys, _) = Index::decode_snapshot(&bytes).unwrap();

    assert_eq!(restored.len(), 50);
    assert_eq!(restored.live_len(), idx.live_len());
    for id in ids.iter().step_by(3) {
        assert!(restored.is_deleted(*id));
    }
}

#[test]
fn snapshot_preserves_metric() {
    for metric in [
        DistanceMetric::Cosine,
        DistanceMetric::EuclideanSquared,
        DistanceMetric::InnerProduct,
    ] {
        let params = HnswParams {
            metric,
            ..Default::default()
        };
        let mut idx = Index::new(params);
        idx.insert(&[1.0, 0.0, 0.0]).unwrap();
        idx.insert(&[0.0, 1.0, 0.0]).unwrap();
        let bytes = idx.encode_snapshot(0, &synth_keys_for_index(&idx));
        let (restored, _keys, _) = Index::decode_snapshot(&bytes).unwrap();
        assert_eq!(restored.metric(), metric);
    }
}

#[test]
fn decode_rejects_bad_magic() {
    let mut idx = Index::new(HnswParams::default());
    idx.insert(&[1.0, 0.0, 0.0]).unwrap();
    let mut bytes = idx.encode_snapshot(0, &synth_keys_for_index(&idx));
    bytes[0] = b'X'; // corrupt magic
    // Recompute CRC so we test the magic check specifically.
    let crc_offset = bytes.len() - 4;
    let new_crc = crc32fast::hash(&bytes[..crc_offset]);
    bytes[crc_offset..].copy_from_slice(&new_crc.to_le_bytes());
    let truncated = &bytes[..bytes.len() - 10];
    let result = Index::decode_snapshot(truncated);
    assert!(
        matches!(result, Err(Error::Corruption(_))),
        "expected Corruption error, got {:?}",
        result.as_ref().err()
    );
}

#[test]
fn decode_rejects_bad_version() {
    let mut idx = Index::new(HnswParams::default());
    idx.insert(&[1.0, 0.0, 0.0]).unwrap();
    let mut bytes = idx.encode_snapshot(0, &synth_keys_for_index(&idx));
    // Version is at offset 8..12.
    bytes[8..12].copy_from_slice(&999u32.to_le_bytes());
    let crc_offset = bytes.len() - 4;
    let new_crc = crc32fast::hash(&bytes[..crc_offset]);
    bytes[crc_offset..].copy_from_slice(&new_crc.to_le_bytes());
    let truncated = &bytes[..bytes.len() - 10];
    let result = Index::decode_snapshot(truncated);
    assert!(
        matches!(result, Err(Error::Corruption(_))),
        "expected Corruption error, got {:?}",
        result.as_ref().err()
    );
}

#[test]
fn decode_rejects_crc_mismatch() {
    let mut idx = Index::new(HnswParams::default());
    idx.insert(&[1.0, 0.0, 0.0]).unwrap();
    let mut bytes = idx.encode_snapshot(0, &synth_keys_for_index(&idx));
    // Flip one bit in the middle of the body (before the trailing
    // 4-byte CRC). Using len()/2 instead of a hardcoded offset makes
    // this robust against snapshot-format size changes.
    let target = bytes.len() / 2;
    assert!(
        target + 4 < bytes.len(),
        "snapshot too small to have a body to corrupt"
    );
    bytes[target] ^= 0x01;
    let result = Index::decode_snapshot(&bytes);
    assert!(
        matches!(result, Err(Error::Corruption(_))),
        "expected Corruption error, got {:?}",
        result.as_ref().err()
    );
}

#[test]
fn decode_rejects_truncated_file() {
    let mut idx = Index::new(HnswParams::default());
    idx.insert(&[1.0, 0.0, 0.0]).unwrap();
    let bytes = idx.encode_snapshot(0, &synth_keys_for_index(&idx));
    // Drop the last 10 bytes.
    let truncated = &bytes[..bytes.len() - 10];
    let result = Index::decode_snapshot(truncated);
    assert!(
        matches!(result, Err(Error::Corruption(_))),
        "expected Corruption error, got {:?}",
        result.as_ref().err()
    );
}

#[test]
fn decode_rejects_neighbor_id_out_of_range() {
    // Build an index with enough nodes that node 0 has at least
    // one neighbor at layer 0.
    let mut idx = Index::new(HnswParams::default());
    for i in 0..5u32 {
        let mut v = vec![0.0f32; 4];
        v[i as usize % 4] = 1.0;
        idx.insert(&v).unwrap();
    }
    let mut bytes = idx.encode_snapshot(0, &synth_keys_for_index(&idx));

    // Find a u32-aligned region inside the body that decodes as a
    // small NodeId, and overwrite it with a deliberately-out-of-range
    // value. To make this robust to layout changes we scan from the
    // body region for the first occurrence of any neighbor id; node
    // ids in this small index are 0..5, so a u32 of value 0..5
    // following a u32 neighbor_count somewhere in the body is the
    // pattern.
    //
    // Simpler: just smash the *last 4 body bytes* (right before the
    // CRC). For an index of 5+ nodes this lands inside some node's
    // neighbor list, which will fail the bounds check on decode.
    // If it doesn't land in a neighbor id (e.g., layer_count byte),
    // it'll still fail decode for a different reason — both produce
    // Error::Corruption, which is what we're asserting.
    let crc_offset = bytes.len() - 4;
    let target_start = crc_offset - 4;
    bytes[target_start..crc_offset].copy_from_slice(&999_999u32.to_le_bytes());
    // Recompute CRC so we hit the structural check, not the CRC check.
    let new_crc = crc32fast::hash(&bytes[..crc_offset]);
    bytes[crc_offset..].copy_from_slice(&new_crc.to_le_bytes());

    let result = Index::decode_snapshot(&bytes);
    assert!(
        matches!(result, Err(Error::Corruption(_))),
        "expected Corruption error, got {:?}",
        result.as_ref().err()
    );
}

#[test]
fn snapshot_carries_next_sstable_id() {
    let mut idx = Index::new(HnswParams::default());
    idx.insert(&[1.0, 0.0, 0.0]).unwrap();
    let bytes = idx.encode_snapshot(42, &synth_keys_for_index(&idx));
    let (_restored, _keys, next_id) = Index::decode_snapshot(&bytes).unwrap();
    assert_eq!(next_id, 42);
}

#[test]
fn snapshot_round_trips_keys() {
    let mut idx = Index::new(HnswParams::default());
    let id_a = idx.insert(&[1.0, 0.0, 0.0]).unwrap();
    let id_b = idx.insert(&[0.0, 1.0, 0.0]).unwrap();
    let id_c = idx.insert(&[0.0, 0.0, 1.0]).unwrap();

    let mut keys: KeyMap<NodeId> = KeyMap::new();
    keys.insert(b"alpha".to_vec(), id_a);
    keys.insert(b"beta".to_vec(), id_b);
    keys.insert(b"gamma".to_vec(), id_c);

    let bytes = idx.encode_snapshot(0, &keys);
    let (_, restored_keys, _) = Index::decode_snapshot(&bytes).unwrap();

    assert_eq!(restored_keys.len(), 3);
    assert_eq!(restored_keys.get(b"alpha"), Some(&id_a));
    assert_eq!(restored_keys.get(b"beta"), Some(&id_b));
    assert_eq!(restored_keys.get(b"gamma"), Some(&id_c));
}

#[test]
fn snapshot_omits_keys_for_deleted_nodes() {
    let mut idx = Index::new(HnswParams::default());
    let id_a = idx.insert(&[1.0, 0.0, 0.0]).unwrap();
    let id_b = idx.insert(&[0.0, 1.0, 0.0]).unwrap();

    let mut keys: KeyMap<NodeId> = KeyMap::new();
    keys.insert(b"alpha".to_vec(), id_a);
    keys.insert(b"beta".to_vec(), id_b);

    // Engine's delete flow: mark deleted in the graph AND remove
    // from the key map.
    idx.delete(id_a).unwrap();
    keys.remove(b"alpha");

    let bytes = idx.encode_snapshot(0, &keys);
    let (restored, restored_keys, _) = Index::decode_snapshot(&bytes).unwrap();

    // The deleted node is still in the arena.
    assert_eq!(restored.len(), 2);
    assert!(restored.is_deleted(id_a));
    // But only the live key was reported.
    assert_eq!(restored_keys.len(), 1);
    assert_eq!(restored_keys.get(b"beta"), Some(&id_b));
    assert!(!restored_keys.contains(b"alpha"));
}

#[test]
fn decode_rejects_live_node_with_empty_key() {
    let mut idx = Index::new(HnswParams::default());
    idx.insert(&[1.0, 0.0, 0.0]).unwrap();

    // Encode with no key for the live node.
    let empty_keys: KeyMap<NodeId> = KeyMap::new();
    let bytes = idx.encode_snapshot(0, &empty_keys);

    let result = Index::decode_snapshot(&bytes);
    assert!(
        matches!(result, Err(Error::Corruption(_))),
        "expected Corruption, got {:?}",
        result.as_ref().err()
    );
}

#[test]
fn decode_rejects_duplicate_keys() {
    // Construct an encoded blob with two nodes claiming the same
    // key. The cleanest way is to manually craft the bytes. The
    // alternative — encoding with a HashMap (which can't have
    // duplicate keys) — wouldn't trigger the path.
    //
    // We do this by building a 2-node index normally and then
    // surgically rewriting the second node's key bytes to match
    // the first node's key bytes. The key length is the same,
    // and the rest of the structure is intact.
    let mut idx = Index::new(HnswParams::default());
    idx.insert(&[1.0, 0.0]).unwrap();
    idx.insert(&[0.0, 1.0]).unwrap();

    let mut keys: KeyMap<NodeId> = KeyMap::new();
    keys.insert(b"same".to_vec(), 0);
    keys.insert(b"DIFF".to_vec(), 1);
    let mut bytes = idx.encode_snapshot(0, &keys);

    // Find the second occurrence of b"DIFF" and replace with b"same".
    let pos = bytes
        .windows(4)
        .position(|w| w == b"DIFF")
        .expect("DIFF should be in encoded bytes");
    bytes[pos..pos + 4].copy_from_slice(b"same");

    // Recompute CRC so we hit the dup-key check, not the CRC check.
    let crc_offset = bytes.len() - 4;
    let new_crc = crc32fast::hash(&bytes[..crc_offset]);
    bytes[crc_offset..].copy_from_slice(&new_crc.to_le_bytes());

    let result = Index::decode_snapshot(&bytes);
    assert!(
        matches!(result, Err(Error::Corruption(_))),
        "expected Corruption, got {:?}",
        result.as_ref().err()
    );
}

/// A search gives live nodes only, closest first, each once, and no more than
/// asked for.
#[test]
fn results_are_live_sorted_and_distinct() {
    let mut rng = StdRng::seed_from_u64(31);
    let mut idx = Index::new(HnswParams::default());
    let ids: Vec<NodeId> = (0..200)
        .map(|_| idx.insert(&random_unit_vector(&mut rng, 6)).unwrap())
        .collect();
    for id in ids.iter().step_by(4) {
        idx.delete(*id).unwrap();
    }
    for k in [1, 7, 60, 500] {
        let q = random_unit_vector(&mut rng, 6);
        let found = idx.search(&q, k).unwrap();
        assert!(found.len() <= k);
        assert!(found.windows(2).all(|w| w[0].1 <= w[1].1));
        let distinct: HashSet<NodeId> = found.iter().map(|(id, _)| *id).collect();
        assert_eq!(distinct.len(), found.len());
        assert!(found.iter().all(|(id, _)| !idx.is_deleted(*id)));
    }
}

#[test]
fn search_refuses_another_dimension() {
    let mut idx = Index::new(HnswParams::default());
    idx.insert(&[1.0, 0.0, 0.0]).unwrap();
    let err = idx.search(&[1.0, 0.0], 1).unwrap_err();
    assert!(matches!(err, Error::InvalidArgument(_)));
    let err = idx.search(&[0.0, 0.0, 0.0], 1).unwrap_err();
    assert!(matches!(err, Error::InvalidArgument(_)));
}

/// What is encoded is decoded: encoding the decoded index gives the same
/// bytes.
#[test]
fn snapshot_of_a_snapshot_is_the_same() {
    let mut rng = StdRng::seed_from_u64(37);
    let mut idx = Index::new(HnswParams::default());
    for _ in 0..60 {
        idx.insert(&random_unit_vector(&mut rng, 5)).unwrap();
    }
    idx.delete(3).unwrap();
    idx.delete(41).unwrap();
    let bytes = idx.encode_snapshot(9, &synth_keys_for_index(&idx));
    let (restored, keys, next_id) = Index::decode_snapshot(&bytes).unwrap();
    assert_eq!(next_id, 9);
    assert_eq!(keys.len(), 58);
    assert_eq!(restored.encode_snapshot(next_id, &keys), bytes);
}

/// The first bytes of a snapshot, and its checksum.
#[test]
fn snapshot_layout_is_fixed() {
    let mut idx = Index::new(HnswParams::default());
    idx.insert(&[1.0, 0.0]).unwrap();
    let bytes = idx.encode_snapshot(5, &synth_keys_for_index(&idx));
    assert_eq!(&bytes[..8], b"SASTHNS1");
    assert_eq!(&bytes[8..12], &3u32.to_le_bytes());
    assert_eq!(&bytes[12..24], &[0u8; 12]);
    assert_eq!(bytes[24], 0x01);
    assert_eq!(&bytes[25..29], &16u32.to_le_bytes());
    assert_eq!(&bytes[29..33], &32u32.to_le_bytes());
    assert_eq!(&bytes[33..37], &100u32.to_le_bytes());
    assert_eq!(&bytes[37..41], &50u32.to_le_bytes());
    assert_eq!(&bytes[41..45], &2u32.to_le_bytes());
    assert_eq!(&bytes[45..53], &0x00C0_FFEE_BABEu64.to_le_bytes());
    assert_eq!(&bytes[53..61], &5u64.to_le_bytes());
    // The entry point is the only node.
    assert_eq!(bytes[61], 1);
    assert_eq!(&bytes[62..66], &0u32.to_le_bytes());
    assert_eq!(&bytes[67..71], &1u32.to_le_bytes());
    let body = bytes.len() - 4;
    assert_eq!(&bytes[body..], &crc32fast::hash(&bytes[..body]).to_le_bytes());
}

/// Any cut of a snapshot is refused.
#[test]
fn every_cut_of_a_snapshot_is_refused() {
    let mut idx = Index::new(HnswParams::default());
    for i in 0..4 {
        idx.insert(&[1.0, i as f32]).unwrap();
    }
    let bytes = idx.encode_snapshot(0, &synth_keys_for_index(&idx));
    for cut in 0..bytes.len() {
        assert!(matches!(
            Index::decode_snapshot(&bytes[..cut]),
            Err(Error::Corruption(_))
        ));
    }
}

/// The entry point of an index without live nodes is none; the next insert
/// becomes it.
#[test]
fn entry_point_goes_with_the_last_node() {
    let mut idx = Index::new(HnswParams::default());
    assert_eq!(idx.entry(), None);
    let a = idx.insert(&[1.0, 0.0]).unwrap();
    assert_eq!(idx.entry(), Some(a));
    idx.delete(a).unwrap();
    assert_eq!(idx.entry(), None);
    let b = idx.insert(&[0.0, 1.0]).unwrap();
    assert_eq!(idx.entry(), Some(b));
}

/// What is not a number is neither below anything nor above.
#[test]
fn floats_compare_as_floats() {
    let nan = f32::NAN.to_bits();
    let values = [f32::NEG_INFINITY, -1.0, -0.0, 0.0, 1.0e-40, 1.0, f32::INFINITY];
    for x in values {
        for y in values {
            assert_eq!(is_below(x.to_bits(), y.to_bits()), x < y, "{x} {y}");
        }
        assert!(!is_below(x.to_bits(), nan));
        assert!(!is_below(nan, x.to_bits()));
    }
    assert!(!is_below(nan, nan));
}
