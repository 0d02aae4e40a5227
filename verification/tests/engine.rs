//! The engine, end to end.

use rand::rngs::SmallRng;
use rand::{Rng, SeedableRng};
use sastran::engine::names::{
    parse_snapshot_filename, parse_sst_filename, snapshot_filename, sst_filename,
};
use sastran::hnsw::math::VectorFns;
use sastran::hnsw::{DistanceMetric, HnswIndex};
use sastran::io::mem::MemFs;
use sastran::io::Io;
use sastran::memtable::Entry;
use sastran::sstable::writer::SsTableWriter;
use sastran::{Engine, Error, Options, Result};
use std::cell::RefCell;

fn bits(v: &[f32]) -> Vec<u32> {
    v.iter().map(|x| x.to_bits()).collect()
}

fn distance_of_bits(metric: DistanceMetric, a: &[u32], b: &[u32]) -> u32 {
    let pairs = a.iter().zip(b).map(|(x, y)| (f32::from_bits(*x), f32::from_bits(*y)));
    let d: f32 = match metric {
        DistanceMetric::Cosine => 1.0 - pairs.map(|(x, y)| x * y).sum::<f32>(),
        DistanceMetric::EuclideanSquared => pairs.map(|(x, y)| (x - y) * (x - y)).sum(),
        DistanceMetric::InnerProduct => -pairs.map(|(x, y)| x * y).sum::<f32>(),
    };
    d.to_bits()
}

fn unit_bits(v: &[u32]) -> Option<Vec<u32>> {
    let v: Vec<f32> = v.iter().map(|x| f32::from_bits(*x)).collect();
    let norm: f32 = v.iter().map(|x| x * x).sum::<f32>().sqrt();
    if norm == 0.0 || !norm.is_finite() {
        return None;
    }
    Some(v.iter().map(|x| (x / norm).to_bits()).collect())
}

/// The sample number `draw` of a generator with the seed, as a level.
fn level(seed: u64, m: usize, draw: u64) -> u8 {
    let mut rng = SmallRng::seed_from_u64(seed);
    for _ in 0..draw {
        rng.gen_range(f64::EPSILON..1.0);
    }
    let r: f64 = rng.gen_range(f64::EPSILON..1.0);
    let level = (-r.ln() / (m as f64).ln()).floor() as i64;
    level.clamp(0, 30) as u8
}

type DistanceFn = fn(DistanceMetric, &[u32], &[u32]) -> u32;
type UnitFn = fn(&[u32]) -> Option<Vec<u32>>;
type LevelFn = fn(u64, usize, u64) -> u8;

/// The files of one engine; they stay when the engine goes.
struct Dir {
    fs: RefCell<MemFs>,
}

impl Dir {
    fn new() -> Dir {
        Dir { fs: RefCell::new(MemFs::new()) }
    }

    fn options(&self) -> Options {
        Options::new("db".to_string())
    }

    fn names(&self) -> Vec<String> {
        let names = self.fs.borrow().list_dir("db").unwrap();
        names.into_iter().map(|n| String::from_utf8(n).unwrap()).collect()
    }

    /// The names of the snapshots.
    fn snapshots(&self) -> Vec<String> {
        self.names()
            .into_iter()
            .filter(|n| n.starts_with("hnsw_") && n.ends_with(".idx"))
            .collect()
    }

    fn content(&self, name: &str) -> Option<Vec<u8>> {
        self.fs.borrow().content(name.as_bytes())
    }

    fn store(&self, name: &str, bytes: &[u8]) {
        self.fs.borrow_mut().store(name.as_bytes(), bytes.to_vec());
    }

    fn remove(&self, name: &str) {
        self.fs.borrow_mut().remove_file(name.as_bytes()).unwrap();
    }
}

/// One result of a search.
#[derive(Debug, PartialEq)]
struct Hit {
    key: Vec<u8>,
    distance: f32,
}

/// An engine on a [`Dir`], with embeddings as floats.
struct Db<'a> {
    engine: RefCell<Option<Engine<MemFs, VectorFns<DistanceFn, UnitFn, LevelFn>>>>,
    dir: &'a Dir,
}

impl<'a> Db<'a> {
    fn open(dir: &'a Dir, options: Options) -> Result<Db<'a>> {
        let math = VectorFns {
            distance: distance_of_bits as DistanceFn,
            normalize: unit_bits as UnitFn,
            level: level as LevelFn,
        };
        let engine = Engine::open(dir.fs.take(), math, options)?;
        Ok(Db { engine: RefCell::new(Some(engine)), dir })
    }

    fn put(&self, key: &[u8], value: &[u8]) -> Result<()> {
        self.engine.borrow_mut().as_mut().unwrap().put(key, value)
    }

    fn delete(&self, key: &[u8]) -> Result<()> {
        self.engine.borrow_mut().as_mut().unwrap().delete(key)
    }

    fn put_indexed(&self, key: &[u8], embedding: &[f32]) -> Result<()> {
        self.engine.borrow_mut().as_mut().unwrap().put_indexed(key, &bits(embedding))
    }

    fn get(&self, key: &[u8]) -> Result<Option<Vec<u8>>> {
        self.engine.borrow().as_ref().unwrap().get(key)
    }

    fn nearest(&self, query: &[f32], k: usize) -> Result<Vec<Hit>> {
        let found = self.engine.borrow().as_ref().unwrap().nearest(&bits(query), k)?;
        Ok(found
            .into_iter()
            .map(|r| Hit { key: r.key, distance: f32::from_bits(r.distance) })
            .collect())
    }

    fn nearest_filtered<F: Fn(&[u8]) -> bool>(
        &self,
        query: &[f32],
        k: usize,
        predicate: F,
    ) -> Result<Vec<Hit>> {
        let engine = self.engine.borrow();
        let found = engine.as_ref().unwrap().nearest_filtered(&bits(query), k, predicate)?;
        Ok(found
            .into_iter()
            .map(|r| Hit { key: r.key, distance: f32::from_bits(r.distance) })
            .collect())
    }

    fn flush(&self) -> Result<()> {
        self.engine.borrow_mut().as_mut().unwrap().flush()
    }

    fn close(&self) -> Result<()> {
        self.engine.borrow_mut().as_mut().unwrap().close()
    }

    fn memtable_len(&self) -> usize {
        self.engine.borrow().as_ref().unwrap().memtable_len()
    }

    fn sstable_count(&self) -> usize {
        self.engine.borrow().as_ref().unwrap().sstable_count()
    }

    fn level_counts(&self) -> (usize, usize) {
        self.engine.borrow().as_ref().unwrap().level_counts()
    }

    fn vector_count(&self) -> usize {
        self.engine.borrow().as_ref().unwrap().vector_count()
    }

    /// Lets the engine go and gives the names of the snapshots.
    fn into_snapshots(self) -> Vec<String> {
        let dir = self.dir;
        drop(self);
        dir.snapshots()
    }
}

impl Drop for Db<'_> {
    fn drop(&mut self) {
        if let Some(engine) = self.engine.borrow_mut().take() {
            self.dir.fs.replace(engine.into_io());
        }
    }
}

#[test]
fn put_get_delete_basic_flow() {
    let dir = Dir::new();
    let engine = Db::open(&dir, dir.options()).unwrap();

    engine.put(b"key1", b"value1").unwrap();
    engine.put(b"key2", b"value2").unwrap();

    assert_eq!(engine.get(b"key1").unwrap(), Some(b"value1".to_vec()));
    assert_eq!(engine.get(b"key2").unwrap(), Some(b"value2".to_vec()));
    assert_eq!(engine.get(b"missing").unwrap(), None);

    engine.delete(b"key1").unwrap();
    assert_eq!(engine.get(b"key1").unwrap(), None);
    assert_eq!(engine.get(b"key2").unwrap(), Some(b"value2".to_vec()));

    engine.close().unwrap();
}

#[test]
fn overwrite_replaces_value() {
    let dir = Dir::new();
    let engine = Db::open(&dir, dir.options()).unwrap();

    engine.put(b"k", b"v1").unwrap();
    engine.put(b"k", b"v2").unwrap();
    engine.put(b"k", b"v3").unwrap();
    assert_eq!(engine.get(b"k").unwrap(), Some(b"v3".to_vec()));
}

#[test]
fn data_persists_across_reopen() {
    let dir = Dir::new();

    {
        let engine = Db::open(&dir, dir.options()).unwrap();
        engine.put(b"persist", b"yes").unwrap();
        engine.put(b"also", b"this").unwrap();
        engine.delete(b"also").unwrap();
        engine.close().unwrap();
    }

    let engine = Db::open(&dir, dir.options()).unwrap();
    assert_eq!(engine.get(b"persist").unwrap(), Some(b"yes".to_vec()));
    // The delete is also recovered — `also` does not come back.
    assert_eq!(engine.get(b"also").unwrap(), None);
}

#[test]
fn many_writes_survive_reopen() {
    let dir = Dir::new();

    {
        let engine = Db::open(&dir, dir.options()).unwrap();
        for i in 0..1000u32 {
            let key = format!("key_{i:04}");
            let value = format!("value_{i}");
            engine.put(key.as_bytes(), value.as_bytes()).unwrap();
        }
        engine.close().unwrap();
    }

    let engine = Db::open(&dir, dir.options()).unwrap();
    assert_eq!(engine.memtable_len(), 1000);
    for i in 0..1000u32 {
        let key = format!("key_{i:04}");
        let expected = format!("value_{i}");
        assert_eq!(
            engine.get(key.as_bytes()).unwrap(),
            Some(expected.into_bytes()),
            "mismatch on {key}"
        );
    }
}

#[test]
fn operations_after_close_fail() {
    let dir = Dir::new();
    let engine = Db::open(&dir, dir.options()).unwrap();
    engine.put(b"k", b"v").unwrap();
    engine.close().unwrap();

    let err = engine.put(b"k2", b"v2").unwrap_err();
    assert!(matches!(err, Error::Closed), "got {err:?}");

    let err = engine.get(b"k").unwrap_err();
    assert!(matches!(err, Error::Closed), "got {err:?}");
}

#[test]
fn close_is_idempotent() {
    let dir = Dir::new();
    let engine = Db::open(&dir, dir.options()).unwrap();
    engine.close().unwrap();
    engine.close().unwrap(); // second close should not error
}

#[test]
fn empty_value_is_valid() {
    let dir = Dir::new();
    let engine = Db::open(&dir, dir.options()).unwrap();
    engine.put(b"k", b"").unwrap();
    assert_eq!(engine.get(b"k").unwrap(), Some(Vec::new()));
}

#[test]
fn put_after_delete_is_visible() {
    let dir = Dir::new();
    let engine = Db::open(&dir, dir.options()).unwrap();
    engine.put(b"k", b"v1").unwrap();
    engine.delete(b"k").unwrap();
    assert_eq!(engine.get(b"k").unwrap(), None);
    engine.put(b"k", b"v2").unwrap();
    assert_eq!(engine.get(b"k").unwrap(), Some(b"v2".to_vec()));
}

#[test]
fn delete_on_unseen_key_succeeds() {
    let dir = Dir::new();
    let engine = Db::open(&dir, dir.options()).unwrap();
    engine.delete(b"never_existed").unwrap();
    assert_eq!(engine.get(b"never_existed").unwrap(), None);
}

fn assert_send_sync<T: Send + Sync>() {}

#[test]
fn engine_is_send_and_sync() {
    // Compile-time check: Engine must be safe to share across threads.
    assert_send_sync::<Engine<MemFs, VectorFns<DistanceFn, UnitFn, LevelFn>>>();
}

#[test]
fn flush_moves_data_to_sstable_and_clears_memtable() {
    let dir = Dir::new();
    let engine = Db::open(&dir, dir.options()).unwrap();

    for i in 0..100u32 {
        engine
            .put(format!("k_{i:03}").as_bytes(), format!("v_{i}").as_bytes())
            .unwrap();
    }
    assert_eq!(engine.memtable_len(), 100);
    assert_eq!(engine.sstable_count(), 0);

    engine.flush().unwrap();
    assert_eq!(engine.memtable_len(), 0);
    assert_eq!(engine.sstable_count(), 1);

    // All keys still retrievable, now from SSTable.
    for i in 0..100u32 {
        let key = format!("k_{i:03}");
        let expected = format!("v_{i}");
        assert_eq!(
            engine.get(key.as_bytes()).unwrap(),
            Some(expected.into_bytes())
        );
    }
}

#[test]
fn data_persists_across_reopen_after_flush() {
    let dir = Dir::new();
    {
        let engine = Db::open(&dir, dir.options()).unwrap();
        for i in 0..50u32 {
            engine
                .put(format!("k_{i:03}").as_bytes(), format!("v_{i}").as_bytes())
                .unwrap();
        }
        engine.flush().unwrap();
        engine.close().unwrap();
    }

    let engine = Db::open(&dir, dir.options()).unwrap();
    assert_eq!(engine.sstable_count(), 1);
    assert_eq!(engine.memtable_len(), 0);
    for i in 0..50u32 {
        let key = format!("k_{i:03}");
        let expected = format!("v_{i}");
        assert_eq!(
            engine.get(key.as_bytes()).unwrap(),
            Some(expected.into_bytes())
        );
    }
}

#[test]
fn newer_memtable_shadows_older_sstable() {
    let dir = Dir::new();
    let engine = Db::open(&dir, dir.options()).unwrap();

    engine.put(b"k", b"old").unwrap();
    engine.flush().unwrap();
    assert_eq!(engine.sstable_count(), 1);

    // Now overwrite in the fresh memtable.
    engine.put(b"k", b"new").unwrap();
    assert_eq!(engine.memtable_len(), 1);

    assert_eq!(engine.get(b"k").unwrap(), Some(b"new".to_vec()));
}

#[test]
fn delete_in_memtable_masks_sstable() {
    let dir = Dir::new();
    let engine = Db::open(&dir, dir.options()).unwrap();

    engine.put(b"k", b"v").unwrap();
    engine.flush().unwrap();
    engine.delete(b"k").unwrap();

    assert_eq!(engine.get(b"k").unwrap(), None);

    // After a second flush, the tombstone lives in the newer SSTable.
    engine.flush().unwrap();
    assert_eq!(engine.sstable_count(), 2);
    assert_eq!(engine.get(b"k").unwrap(), None);
}

#[test]
fn newer_sstable_shadows_older_sstable() {
    let dir = Dir::new();
    let engine = Db::open(&dir, dir.options()).unwrap();

    engine.put(b"k", b"v1").unwrap();
    engine.flush().unwrap();
    engine.put(b"k", b"v2").unwrap();
    engine.flush().unwrap();
    assert_eq!(engine.sstable_count(), 2);

    assert_eq!(engine.get(b"k").unwrap(), Some(b"v2".to_vec()));
}

#[test]
fn flush_on_empty_memtable_is_noop() {
    let dir = Dir::new();
    let engine = Db::open(&dir, dir.options()).unwrap();
    engine.flush().unwrap();
    assert_eq!(engine.sstable_count(), 0);
}

#[test]
fn multiple_flushes_and_reopen_accumulate_sstables() {
    let dir = Dir::new();
    {
        let engine = Db::open(&dir, dir.options()).unwrap();
        engine.put(b"a", b"1").unwrap();
        engine.flush().unwrap();
        engine.put(b"b", b"2").unwrap();
        engine.flush().unwrap();
        engine.put(b"c", b"3").unwrap();
        engine.flush().unwrap();
        engine.close().unwrap();
    }

    let engine = Db::open(&dir, dir.options()).unwrap();
    assert_eq!(engine.sstable_count(), 3);
    assert_eq!(engine.get(b"a").unwrap(), Some(b"1".to_vec()));
    assert_eq!(engine.get(b"b").unwrap(), Some(b"2".to_vec()));
    assert_eq!(engine.get(b"c").unwrap(), Some(b"3".to_vec()));
}

#[test]
fn auto_flush_triggers_when_threshold_exceeded() {
    let dir = Dir::new();
    let mut options = dir.options();
    // Small threshold so we don't have to write megabytes in a test.
    options.memtable_max_size_bytes = 1024;
    let engine = Db::open(&dir, options).unwrap();

    // Write enough data to exceed 1 KiB. With 32-byte keys + 32-byte
    // values, ~20 puts comfortably crosses the threshold.
    for i in 0..40u32 {
        let key = format!("key_{i:028}"); // 32 bytes
        let value = format!("val_{i:028}"); // 32 bytes
        engine.put(key.as_bytes(), value.as_bytes()).unwrap();
    }

    // At least one auto-flush should have happened.
    assert!(
        engine.sstable_count() >= 1,
        "expected auto-flush, got sstable_count = {}",
        engine.sstable_count()
    );
    // The memtable should be smaller than the threshold right now.
    // (We don't have a direct getter for approximate_size; the public
    // signal is that memtable_len is well below 40.)
    assert!(
        engine.memtable_len() < 40,
        "auto-flush should have moved entries to SSTable"
    );

    // All keys still retrievable.
    for i in 0..40u32 {
        let key = format!("key_{i:028}");
        let expected = format!("val_{i:028}");
        assert_eq!(
            engine.get(key.as_bytes()).unwrap(),
            Some(expected.into_bytes()),
            "lost key {key}"
        );
    }
}

#[test]
fn auto_flush_does_not_run_below_threshold() {
    let dir = Dir::new();
    let mut options = dir.options();
    options.memtable_max_size_bytes = 1024 * 1024; // 1 MiB
    let engine = Db::open(&dir, options).unwrap();

    // Small writes — well below 1 MiB.
    for i in 0..50u32 {
        let key = format!("k_{i}");
        let value = format!("v_{i}");
        engine.put(key.as_bytes(), value.as_bytes()).unwrap();
    }
    assert_eq!(engine.sstable_count(), 0, "no auto-flush should have run");
    assert_eq!(engine.memtable_len(), 50);
}

#[test]
fn auto_flushed_data_survives_reopen() {
    let dir = Dir::new();
    let mut options = dir.options();
    options.memtable_max_size_bytes = 512;
    {
        let engine = Db::open(&dir, options.clone()).unwrap();
        for i in 0..100u32 {
            let key = format!("k_{i:08}");
            let value = format!("v_{i:08}");
            engine.put(key.as_bytes(), value.as_bytes()).unwrap();
        }
        // Multiple auto-flushes expected.
        assert!(engine.sstable_count() >= 2);
        engine.close().unwrap();
    }

    let engine = Db::open(&dir, options).unwrap();
    for i in 0..100u32 {
        let key = format!("k_{i:08}");
        let expected = format!("v_{i:08}");
        assert_eq!(
            engine.get(key.as_bytes()).unwrap(),
            Some(expected.into_bytes())
        );
    }
}

#[test]
fn auto_flush_handles_oversized_single_value() {
    let dir = Dir::new();
    let mut options = dir.options();
    options.memtable_max_size_bytes = 100; // tiny
    let engine = Db::open(&dir, options).unwrap();

    let big = vec![0xAAu8; 4096]; // single value exceeds threshold
    engine.put(b"big", &big).unwrap();

    // The single oversized put should have triggered an auto-flush.
    assert_eq!(engine.sstable_count(), 1);
    assert_eq!(engine.memtable_len(), 0);
    assert_eq!(engine.get(b"big").unwrap(), Some(big));
}

#[test]
fn compaction_drops_tombstones() {
    let dir = Dir::new();
    let mut options = dir.options();
    options.memtable_max_size_bytes = 1;
    options.l0_compaction_trigger = 2;
    let engine = Db::open(&dir, options).unwrap();

    // Two flushes: one put, one tombstone for the same key. Compaction
    // should fire after the second flush, see the tombstone as the
    // newest entry, and drop it (we're the bottom level, so no older
    // value below could be masked).
    engine.put(b"ghost", b"value").unwrap();
    engine.delete(b"ghost").unwrap();

    let (l0, l1) = engine.level_counts();
    assert_eq!(l0, 0, "compaction should drain L0");
    assert_eq!(
        l1, 0,
        "tombstone-only compaction should produce no L1 output"
    );
    assert_eq!(engine.get(b"ghost").unwrap(), None);
}

#[test]
fn compaction_keeps_newest_value_for_overwritten_key() {
    let dir = Dir::new();
    let mut options = dir.options();
    options.memtable_max_size_bytes = 1;
    options.l0_compaction_trigger = 3;
    let engine = Db::open(&dir, options).unwrap();

    engine.put(b"k", b"first").unwrap();
    engine.put(b"k", b"second").unwrap();
    engine.put(b"k", b"third").unwrap();

    let (l0, l1) = engine.level_counts();
    assert_eq!(l0, 0);
    assert_eq!(l1, 1);
    assert_eq!(engine.get(b"k").unwrap(), Some(b"third".to_vec()));
}

#[test]
fn compaction_preserves_disjoint_keys_across_l0_files() {
    let dir = Dir::new();
    let mut options = dir.options();
    options.memtable_max_size_bytes = 1;
    options.l0_compaction_trigger = 4;
    let engine = Db::open(&dir, options).unwrap();

    for i in 0..4u32 {
        let key = format!("disjoint_{i}");
        let value = format!("value_{i}");
        engine.put(key.as_bytes(), value.as_bytes()).unwrap();
    }

    let (l0, l1) = engine.level_counts();
    assert_eq!(l0, 0);
    assert_eq!(l1, 1);
    for i in 0..4u32 {
        let key = format!("disjoint_{i}");
        let expected = format!("value_{i}");
        assert_eq!(
            engine.get(key.as_bytes()).unwrap(),
            Some(expected.into_bytes()),
            "missing key {key}"
        );
    }
}

#[test]
fn multiple_compaction_rounds_keep_state_consistent() {
    let dir = Dir::new();
    let mut options = dir.options();
    options.memtable_max_size_bytes = 1;
    options.l0_compaction_trigger = 3;
    let engine = Db::open(&dir, options).unwrap();

    // Round 1: write disjoint keys 0..3 → 3 flushes → triggers compaction.
    for i in 0..3u32 {
        engine
            .put(format!("k_{i:02}").as_bytes(), b"old")
            .unwrap();
    }
    let (l0, l1) = engine.level_counts();
    assert_eq!((l0, l1), (0, 1));

    // Round 2: write overlapping keys 2..5 → 3 more flushes → triggers
    // a second compaction merging the new L0s with the existing L1.
    for i in 2..5u32 {
        engine
            .put(format!("k_{i:02}").as_bytes(), b"new")
            .unwrap();
    }
    let (l0, l1) = engine.level_counts();
    assert_eq!((l0, l1), (0, 1));

    // Verify final state: 0,1 keep "old" (only round 1 touched them);
    // 2,3,4 get "new" (round 2 overwrote 2 and added 3,4).
    assert_eq!(engine.get(b"k_00").unwrap(), Some(b"old".to_vec()));
    assert_eq!(engine.get(b"k_01").unwrap(), Some(b"old".to_vec()));
    assert_eq!(engine.get(b"k_02").unwrap(), Some(b"new".to_vec()));
    assert_eq!(engine.get(b"k_03").unwrap(), Some(b"new".to_vec()));
    assert_eq!(engine.get(b"k_04").unwrap(), Some(b"new".to_vec()));
}


#[test]
fn compaction_state_survives_reopen() {
    let dir = Dir::new();
    let mut options = dir.options();
    options.memtable_max_size_bytes = 1;
    options.l0_compaction_trigger = 3;

    // Phase 1: write exactly enough to trigger one compaction and
    // leave the engine in a freshly-compacted state (L0 = 0, L1 = 1).
    {
        let engine = Db::open(&dir, options.clone()).unwrap();
        for i in 0..3u32 {
            engine
                .put(format!("persist_{i}").as_bytes(), b"value")
                .unwrap();
        }
        let (l0, l1) = engine.level_counts();
        assert_eq!(
            (l0, l1),
            (0, 1),
            "expected freshly-compacted state before close"
        );
        engine.close().unwrap();
    }

    // Phase 2: reopen. State should match phase 1's final state.
    let engine = Db::open(&dir, options).unwrap();
    let (l0_after, l1_after) = engine.level_counts();
    assert_eq!(l0_after, 0, "no L0 files should survive reopen");
    assert_eq!(l1_after, 1, "the one L1 SSTable should survive reopen");

    for i in 0..3u32 {
        let key = format!("persist_{i}");
        assert_eq!(
            engine.get(key.as_bytes()).unwrap(),
            Some(b"value".to_vec()),
            "missing key {key} after reopen"
        );
    }
}

#[test]
fn post_compaction_l0_files_survive_reopen() {
    let dir = Dir::new();
    let mut options = dir.options();
    options.memtable_max_size_bytes = 1;
    options.l0_compaction_trigger = 3;

    // Phase 1: 3 puts trigger compaction (-> L0=0, L1=1), then 2 more
    // puts add fresh L0 files that DON'T trigger another compaction.
    // Final state: L0 = 2, L1 = 1.
    {
        let engine = Db::open(&dir, options.clone()).unwrap();
        for i in 0..5u32 {
            engine
                .put(format!("key_{i}").as_bytes(), format!("v{i}").as_bytes())
                .unwrap();
        }
        let (l0, l1) = engine.level_counts();
        assert_eq!((l0, l1), (2, 1), "expected 2 fresh L0 + 1 compacted L1");
        engine.close().unwrap();
    }

    // Phase 2: reopen. Discovery must keep both the L1 *and* the
    // newer L0 files. The orphan-cleanup heuristic (drop L0 with
    // id <= surviving L1 id) should leave the newer L0 files alone.
    let engine = Db::open(&dir, options).unwrap();
    let (l0_after, l1_after) = engine.level_counts();
    assert_eq!(l0_after, 2, "newer L0 files must survive reopen");
    assert_eq!(l1_after, 1);

    // All five keys must still read correctly: 0..3 from L1, 3..5 from L0.
    for i in 0..5u32 {
        let key = format!("key_{i}");
        let expected = format!("v{i}");
        assert_eq!(
            engine.get(key.as_bytes()).unwrap(),
            Some(expected.into_bytes())
        );
    }
}

#[test]
fn put_indexed_then_get_returns_vector_bytes() {
    let dir = Dir::new();
    let engine = Db::open(&dir, dir.options()).unwrap();

    let embedding = vec![0.1f32, 0.2, 0.3, 0.4];
    engine.put_indexed(b"mem_1", &embedding).unwrap();

    let got = engine.get(b"mem_1").unwrap().expect("key should exist");
    // The bytes are the little-endian f32 encoding.
    let mut expected = Vec::new();
    for x in &embedding {
        expected.extend_from_slice(&x.to_le_bytes());
    }
    assert_eq!(got, expected);
}

#[test]
fn put_indexed_rejects_empty_embedding() {
    let dir = Dir::new();
    let engine = Db::open(&dir, dir.options()).unwrap();
    let err = engine.put_indexed(b"k", &[]).unwrap_err();
    assert!(matches!(err, Error::InvalidArgument(_)));
}

#[test]
fn put_indexed_rejects_non_finite() {
    let dir = Dir::new();
    let engine = Db::open(&dir, dir.options()).unwrap();
    let err = engine.put_indexed(b"k", &[1.0, f32::NAN]).unwrap_err();
    assert!(matches!(err, Error::InvalidArgument(_)));
    let err = engine.put_indexed(b"k", &[f32::INFINITY, 0.0]).unwrap_err();
    assert!(matches!(err, Error::InvalidArgument(_)));
}

#[test]
fn put_indexed_then_delete_masks_correctly() {
    let dir = Dir::new();
    let engine = Db::open(&dir, dir.options()).unwrap();
    engine.put_indexed(b"k", &[0.1, 0.2]).unwrap();
    engine.delete(b"k").unwrap();
    assert_eq!(engine.get(b"k").unwrap(), None);
}

#[test]
fn put_indexed_can_be_overwritten_by_put() {
    let dir = Dir::new();
    let engine = Db::open(&dir, dir.options()).unwrap();
    engine.put_indexed(b"k", &[0.1, 0.2]).unwrap();
    engine.put(b"k", b"plain bytes now").unwrap();
    assert_eq!(engine.get(b"k").unwrap(), Some(b"plain bytes now".to_vec()));
}

#[test]
fn put_indexed_survives_reopen_via_wal_replay() {
    let dir = Dir::new();
    let embedding = vec![0.5f32, -0.5, 0.25, -0.25];
    {
        let engine = Db::open(&dir, dir.options()).unwrap();
        engine.put_indexed(b"persist", &embedding).unwrap();
        engine.close().unwrap();
    }
    let engine = Db::open(&dir, dir.options()).unwrap();
    let got = engine.get(b"persist").unwrap().expect("key should persist");
    let mut expected = Vec::new();
    for x in &embedding {
        expected.extend_from_slice(&x.to_le_bytes());
    }
    assert_eq!(got, expected);
}

#[test]
fn put_indexed_survives_flush_via_sstable() {
    let dir = Dir::new();
    let mut options = dir.options();
    options.memtable_max_size_bytes = 1; // every write triggers flush
    let engine = Db::open(&dir, options).unwrap();

    let embedding = vec![0.1f32, 0.2, 0.3];
    engine.put_indexed(b"sst_vec", &embedding).unwrap();

    // Force a manual flush in case the threshold didn't fire.
    engine.flush().unwrap();
    let (l0, _) = engine.level_counts();
    assert!(l0 >= 1, "expected at least one SSTable after flush");

    let got = engine.get(b"sst_vec").unwrap().expect("key should be in SST");
    let mut expected = Vec::new();
    for x in &embedding {
        expected.extend_from_slice(&x.to_le_bytes());
    }
    assert_eq!(got, expected);
}

#[test]
fn put_indexed_survives_full_flush_compact_reopen_cycle() {
    let dir = Dir::new();
    let mut options = dir.options();
    options.memtable_max_size_bytes = 1;
    options.l0_compaction_trigger = 2;

    let embeddings: Vec<Vec<f32>> = (1..=5)
        .map(|i| vec![i as f32 * 0.1, i as f32 * 0.2, i as f32 * 0.3])
        .collect();

    {
        let engine = Db::open(&dir, options.clone()).unwrap();
        for (i, e) in embeddings.iter().enumerate() {
            let key = format!("vec_{i}");
            engine.put_indexed(key.as_bytes(), e).unwrap();
        }
        engine.close().unwrap();
    }

    let engine = Db::open(&dir, options).unwrap();
    for (i, e) in embeddings.iter().enumerate() {
        let key = format!("vec_{i}");
        let got = engine.get(key.as_bytes()).unwrap().unwrap_or_else(|| {
            panic!("missing key {key} after reopen+compact");
        });
        let mut expected = Vec::new();
        for x in e {
            expected.extend_from_slice(&x.to_le_bytes());
        }
        assert_eq!(got, expected, "vector for {key} corrupted");
    }
}

#[test]
fn nearest_on_empty_engine_returns_empty() {
    let dir = Dir::new();
    let engine = Db::open(&dir, dir.options()).unwrap();
    let r = engine.nearest(&[1.0, 0.0, 0.0], 10).unwrap();
    assert!(r.is_empty());
}

#[test]
fn nearest_returns_self_first() {
    let dir = Dir::new();
    let engine = Db::open(&dir, dir.options()).unwrap();
    engine.put_indexed(b"target", &[1.0, 0.0, 0.0]).unwrap();
    engine.put_indexed(b"distractor", &[0.0, 1.0, 0.0]).unwrap();

    let r = engine.nearest(&[1.0, 0.0, 0.0], 2).unwrap();
    assert_eq!(r.len(), 2);
    assert_eq!(r[0].key, b"target");
    assert_eq!(r[1].key, b"distractor");
}

#[test]
fn nearest_orders_by_distance() {
    let dir = Dir::new();
    let engine = Db::open(&dir, dir.options()).unwrap();
    engine.put_indexed(b"near", &[1.0, 0.01, 0.0]).unwrap();
    engine.put_indexed(b"mid", &[0.7, 0.7, 0.0]).unwrap();
    engine.put_indexed(b"far", &[0.0, 1.0, 0.0]).unwrap();

    let r = engine.nearest(&[1.0, 0.0, 0.0], 3).unwrap();
    assert_eq!(r[0].key, b"near");
    assert_eq!(r[1].key, b"mid");
    assert_eq!(r[2].key, b"far");
    assert!(r[0].distance < r[1].distance);
    assert!(r[1].distance < r[2].distance);
}

#[test]
fn put_indexed_overwrite_updates_search_results() {
    let dir = Dir::new();
    let engine = Db::open(&dir, dir.options()).unwrap();
    // First insert: k is at [1, 0, 0].
    engine.put_indexed(b"k", &[1.0, 0.0, 0.0]).unwrap();
    // Distractor far away.
    engine.put_indexed(b"distractor", &[0.0, 1.0, 0.0]).unwrap();

    let before = engine.nearest(&[1.0, 0.0, 0.0], 1).unwrap();
    assert_eq!(before[0].key, b"k");

    // Now move k to a different region.
    engine.put_indexed(b"k", &[0.0, 0.0, 1.0]).unwrap();
    let after = engine.nearest(&[1.0, 0.0, 0.0], 1).unwrap();
    // The distractor at [0, 1, 0] is now closer to query [1, 0, 0]
    // than the relocated k at [0, 0, 1].
    assert_eq!(after[0].key, b"distractor");
}

#[test]
fn delete_removes_key_from_nearest_results() {
    let dir = Dir::new();
    let engine = Db::open(&dir, dir.options()).unwrap();
    engine.put_indexed(b"keep", &[1.0, 0.0, 0.0]).unwrap();
    engine.put_indexed(b"delete_me", &[0.99, 0.01, 0.0]).unwrap();

    let before = engine.nearest(&[1.0, 0.0, 0.0], 2).unwrap();
    assert_eq!(before.len(), 2);

    engine.delete(b"delete_me").unwrap();
    let after = engine.nearest(&[1.0, 0.0, 0.0], 2).unwrap();
    assert_eq!(after.len(), 1);
    assert_eq!(after[0].key, b"keep");
}

#[test]
fn put_indexed_rejects_dimension_mismatch() {
    let dir = Dir::new();
    let engine = Db::open(&dir, dir.options()).unwrap();
    engine.put_indexed(b"first", &[1.0, 0.0, 0.0]).unwrap();
    let err = engine.put_indexed(b"second", &[1.0, 0.0]).unwrap_err();
    assert!(matches!(err, Error::InvalidArgument(_)));
    // The engine state should be unchanged: only "first" is indexed.
    assert_eq!(engine.vector_count(), 1);
    let r = engine.nearest(&[1.0, 0.0, 0.0], 5).unwrap();
    assert_eq!(r.len(), 1);
    assert_eq!(r[0].key, b"first");
}

#[test]
fn vector_index_recovers_after_reopen() {
    let dir = Dir::new();
    {
        let engine = Db::open(&dir, dir.options()).unwrap();
        engine.put_indexed(b"a", &[1.0, 0.0, 0.0]).unwrap();
        engine.put_indexed(b"b", &[0.0, 1.0, 0.0]).unwrap();
        engine.put_indexed(b"c", &[0.0, 0.0, 1.0]).unwrap();
        engine.close().unwrap();
    }

    let engine = Db::open(&dir, dir.options()).unwrap();
    assert_eq!(engine.vector_count(), 3);

    let r = engine.nearest(&[1.0, 0.0, 0.0], 3).unwrap();
    assert_eq!(r.len(), 3);
    assert_eq!(r[0].key, b"a");
}

#[test]
fn vector_index_recovers_through_flush_compact_reopen() {
    let dir = Dir::new();
    let mut options = dir.options();
    options.memtable_max_size_bytes = 1; // force flush per write
    options.l0_compaction_trigger = 2;

    {
        let engine = Db::open(&dir, options.clone()).unwrap();
        // Five vectors in dim 4: four standard basis vectors + a
        // centroid-ish fifth.
        for i in 0..4 {
            let mut v = vec![0.0f32; 4];
            v[i] = 1.0;
            engine
                .put_indexed(format!("vec_{i}").as_bytes(), &v)
                .unwrap();
        }
        // Fifth vector: a different direction.
        engine
            .put_indexed(b"vec_4", &[0.5f32, 0.5, 0.5, 0.5])
            .unwrap();
        engine.close().unwrap();
    }

    let engine = Db::open(&dir, options).unwrap();
    assert_eq!(engine.vector_count(), 5);

    // Querying each basis direction should find the corresponding
    // basis vector as the top result.
    for i in 0..4 {
        let mut q = vec![0.0f32; 4];
        q[i] = 1.0;
        let r = engine.nearest(&q, 1).unwrap();
        assert!(!r.is_empty());
        let expected_key = format!("vec_{i}");
        assert_eq!(r[0].key, expected_key.as_bytes());
    }
}

#[test]
fn vector_index_recovery_respects_tombstones() {
    let dir = Dir::new();
    {
        let engine = Db::open(&dir, dir.options()).unwrap();
        engine.put_indexed(b"alive", &[1.0, 0.0]).unwrap();
        engine.put_indexed(b"dead", &[0.0, 1.0]).unwrap();
        engine.delete(b"dead").unwrap();
        engine.close().unwrap();
    }

    let engine = Db::open(&dir, dir.options()).unwrap();
    // Only "alive" should be in the index after recovery.
    assert_eq!(engine.vector_count(), 1);
    let r = engine.nearest(&[0.0, 1.0], 5).unwrap();
    // Should only find "alive" — "dead" was tombstoned and not
    // re-indexed.
    assert_eq!(r.len(), 1);
    assert_eq!(r[0].key, b"alive");
}

#[test]
fn vector_index_recovery_respects_overwrites() {
    let dir = Dir::new();
    let mut options = dir.options();
    options.memtable_max_size_bytes = 1; // force flushes

    {
        let engine = Db::open(&dir, options.clone()).unwrap();
        // First write: vector v1 for key "k".
        engine.put_indexed(b"k", &[1.0, 0.0]).unwrap();
        // Overwrite with v2 (likely in a new L0 SSTable).
        engine.put_indexed(b"k", &[0.0, 1.0]).unwrap();
        engine.close().unwrap();
    }

    let engine = Db::open(&dir, options).unwrap();
    assert_eq!(engine.vector_count(), 1);

    // Querying with v2 should find "k"; querying with v1 should
    // find "k" too (it's the only one), but the recovered vector
    // should be v2.
    let r = engine.nearest(&[0.0, 1.0], 1).unwrap();
    assert_eq!(r[0].key, b"k");
    // Distance should be ~0 (we're querying with the stored vector).
    assert!(r[0].distance.abs() < 1e-5);
}

#[test]
fn flush_writes_hnsw_snapshot_file() {
    let dir = Dir::new();
    let engine = Db::open(&dir, dir.options()).unwrap();
    engine.put_indexed(b"k", &[1.0, 0.0, 0.0]).unwrap();
    engine.flush().unwrap();

    // Should be exactly one hnsw_*.idx file in the directory now.
    let entries = engine.into_snapshots();
    assert_eq!(entries.len(), 1, "expected exactly one hnsw_*.idx file");
}

#[test]
fn snapshot_file_decodes_back_to_same_index() {
    let dir = Dir::new();
    let engine = Db::open(&dir, dir.options()).unwrap();
    engine.put_indexed(b"a", &[1.0, 0.0, 0.0]).unwrap();
    engine.put_indexed(b"b", &[0.0, 1.0, 0.0]).unwrap();
    engine.put_indexed(b"c", &[0.0, 0.0, 1.0]).unwrap();
    engine.flush().unwrap();

    let snapshots = engine.into_snapshots();
    assert_eq!(snapshots.len(), 1);

    let bytes = dir.content(&snapshots[0]).unwrap();
    let (restored, _keys, _next_id) = HnswIndex::decode_snapshot(&bytes).unwrap();
    assert_eq!(restored.live_len(), 3);
}

#[test]
fn snapshot_carries_correct_next_sstable_id() {
    let dir = Dir::new();
    let mut options = dir.options();
    options.memtable_max_size_bytes = 1; // force flush per write
    let engine = Db::open(&dir, options).unwrap();

    // Three put_indexed calls, each triggering a flush -> SSTable.
    // After the third, next_sst_id should be 3, so the snapshot
    // filename should be hnsw_000003.idx.
    engine.put_indexed(b"a", &[1.0, 0.0]).unwrap();
    engine.put_indexed(b"b", &[0.0, 1.0]).unwrap();
    engine.put_indexed(b"c", &[1.0, 1.0]).unwrap();

    let snapshots = engine.into_snapshots();
    assert_eq!(
        snapshots.len(),
        1,
        "expected exactly one snapshot file after old-snapshot cleanup, got {snapshots:?}"
    );
    assert_eq!(snapshots[0], "hnsw_000003.idx");

    // The id inside the file should match the filename.
    let bytes = dir.content(&snapshots[0]).unwrap();
    let (_, _keys, next_id) = HnswIndex::decode_snapshot(&bytes).unwrap();
    assert_eq!(next_id, 3);
}

#[test]
fn old_snapshots_cleaned_up_on_new_flush() {
    let dir = Dir::new();
    let mut options = dir.options();
    options.memtable_max_size_bytes = 1;
    let engine = Db::open(&dir, options).unwrap();

    // First flush -> hnsw_000001.idx.
    engine.put_indexed(b"a", &[1.0, 0.0]).unwrap();
    // Second flush -> hnsw_000002.idx, hnsw_000001.idx deleted.
    engine.put_indexed(b"b", &[0.0, 1.0]).unwrap();

    let snapshots = engine.into_snapshots();
    assert_eq!(
        snapshots.len(),
        1,
        "only the latest snapshot should remain, got {snapshots:?}"
    );
    assert_eq!(snapshots[0], "hnsw_000002.idx");
}

/// A new snapshot leaves others with its own number, whatever their names.
#[test]
fn snapshots_with_the_same_number_are_spared() {
    let dir = Dir::new();
    dir.store("hnsw_1.idx", b"not a snapshot");
    let mut options = dir.options();
    options.memtable_max_size_bytes = 1;
    let engine = Db::open(&dir, options).unwrap();
    engine.put_indexed(b"a", &[1.0, 0.0]).unwrap();
    let mut snapshots = engine.into_snapshots();
    snapshots.sort();
    assert_eq!(snapshots, ["hnsw_000001.idx", "hnsw_1.idx"]);

    let mut options = dir.options();
    options.memtable_max_size_bytes = 1;
    let engine = Db::open(&dir, options).unwrap();
    engine.put_indexed(b"b", &[0.0, 1.0]).unwrap();
    assert_eq!(engine.into_snapshots(), ["hnsw_000002.idx"]);
}

#[test]
fn no_snapshot_written_for_writes_that_dont_flush() {
    let dir = Dir::new();
    // Default 4 MiB memtable; one small write won't trigger a flush.
    let engine = Db::open(&dir, dir.options()).unwrap();
    engine.put(b"k", b"v").unwrap();

    let snapshots = engine.into_snapshots();
    assert!(
        snapshots.is_empty(),
        "no snapshot should be written when no flush occurred, got {snapshots:?}"
    );
}

#[test]
fn snapshot_written_even_when_only_lsm_writes_happen() {
    // Even if we only call `put` (no put_indexed), every flush should
    // still update the HNSW snapshot. The snapshot will just contain
    // an empty index, but it should exist with the right next_id.
    let dir = Dir::new();
    let mut options = dir.options();
    options.memtable_max_size_bytes = 1;
    let engine = Db::open(&dir, options).unwrap();
    engine.put(b"k", b"v").unwrap();

    let snapshots = engine.into_snapshots();
    assert_eq!(snapshots.len(), 1);

    let bytes = dir.content(&snapshots[0]).unwrap();
    let (restored, _keys, _) = HnswIndex::decode_snapshot(&bytes).unwrap();
    // No vectors were inserted into the index, but the snapshot must
    // still serialize correctly.
    assert_eq!(restored.live_len(), 0);
}

#[test]
fn snapshot_recovery_basic() {
    let dir = Dir::new();
    let mut options = dir.options();
    options.memtable_max_size_bytes = 1; // flush per write -> snapshot per write

    {
        let engine = Db::open(&dir, options.clone()).unwrap();
        engine.put_indexed(b"a", &[1.0, 0.0, 0.0]).unwrap();
        engine.put_indexed(b"b", &[0.0, 1.0, 0.0]).unwrap();
        engine.put_indexed(b"c", &[0.0, 0.0, 1.0]).unwrap();
        engine.close().unwrap();
    }

    // Reopen. The latest snapshot should restore all three vectors.
    let engine = Db::open(&dir, options).unwrap();
    assert_eq!(engine.vector_count(), 3);
    let r = engine.nearest(&[1.0, 0.0, 0.0], 1).unwrap();
    assert_eq!(r[0].key, b"a");
}

#[test]
fn snapshot_recovery_applies_post_snapshot_writes() {
    // After the last flush+snapshot, write more vectors that live only
    // in the WAL/memtable. Recovery must apply them on top of the
    // snapshot.
    let dir = Dir::new();
    let mut options = dir.options();
    // Large memtable: the first writes flush, later writes stay in
    // memtable. Actually we want a controlled split, so flush manually.
    options.memtable_max_size_bytes = 4 * 1024 * 1024;

    {
        let engine = Db::open(&dir, options.clone()).unwrap();
        engine.put_indexed(b"snap_a", &[1.0, 0.0, 0.0]).unwrap();
        engine.put_indexed(b"snap_b", &[0.0, 1.0, 0.0]).unwrap();
        engine.flush().unwrap(); // snapshot now reflects a, b

        // These stay in the WAL/memtable (no further flush).
        engine.put_indexed(b"delta_c", &[0.0, 0.0, 1.0]).unwrap();
        engine.put_indexed(b"delta_d", &[1.0, 1.0, 0.0]).unwrap();
        engine.close().unwrap();
    }

    let engine = Db::open(&dir, options).unwrap();
    // All four should be present: a,b from snapshot; c,d from WAL delta.
    assert_eq!(engine.vector_count(), 4);
    for key in [b"snap_a".as_ref(), b"snap_b", b"delta_c", b"delta_d"] {
        let count = engine
            .nearest(&[1.0, 0.0, 0.0], 4)
            .unwrap()
            .iter()
            .filter(|r| r.key == key)
            .count();
        assert_eq!(count, 1, "missing key {key:?} after recovery");
    }
}

#[test]
fn snapshot_recovery_respects_post_snapshot_delete() {
    // The classic crash scenario: snapshot has a key, then it's deleted,
    // then we crash. Recovery must NOT resurrect the deleted key.
    let dir = Dir::new();
    let mut options = dir.options();
    options.memtable_max_size_bytes = 4 * 1024 * 1024;

    {
        let engine = Db::open(&dir, options.clone()).unwrap();
        engine.put_indexed(b"doomed", &[1.0, 0.0, 0.0]).unwrap();
        engine.put_indexed(b"survivor", &[0.0, 1.0, 0.0]).unwrap();
        engine.flush().unwrap(); // snapshot reflects both

        engine.delete(b"doomed").unwrap(); // delete lives in WAL delta
        engine.close().unwrap();
    }

    let engine = Db::open(&dir, options).unwrap();
    assert_eq!(engine.vector_count(), 1, "doomed should not be resurrected");
    let r = engine.nearest(&[1.0, 0.0, 0.0], 5).unwrap();
    assert_eq!(r.len(), 1);
    assert_eq!(r[0].key, b"survivor");
}

#[test]
fn snapshot_recovery_respects_post_snapshot_overwrite() {
    // Snapshot has key k pointing at v1. Post-snapshot, k is rewritten
    // to v2. Recovery must reflect v2.
    let dir = Dir::new();
    let mut options = dir.options();
    options.memtable_max_size_bytes = 4 * 1024 * 1024;

    {
        let engine = Db::open(&dir, options.clone()).unwrap();
        engine.put_indexed(b"k", &[1.0, 0.0, 0.0]).unwrap();
        engine.put_indexed(b"distractor", &[0.0, 1.0, 0.0]).unwrap();
        engine.flush().unwrap(); // snapshot: k at [1,0,0]

        engine.put_indexed(b"k", &[0.0, 0.0, 1.0]).unwrap(); // overwrite
        engine.close().unwrap();
    }

    let engine = Db::open(&dir, options).unwrap();
    assert_eq!(engine.vector_count(), 2);

    // Query at the NEW location of k. k should be the nearest.
    let r = engine.nearest(&[0.0, 0.0, 1.0], 1).unwrap();
    assert_eq!(r[0].key, b"k");
    assert!(r[0].distance.abs() < 1e-5, "should match new vector");

    // Query at the OLD location. k should NOT be there; distractor
    // (at [0,1,0]) is closer to [1,0,0] than k's new spot [0,0,1]...
    // actually both are equidistant. Just confirm k is at its new
    // location, which we did above.
}

#[test]
fn snapshot_recovery_falls_back_on_corrupted_snapshot() {
    let dir = Dir::new();
    let mut options = dir.options();
    options.memtable_max_size_bytes = 1;

    {
        let engine = Db::open(&dir, options.clone()).unwrap();
        engine.put_indexed(b"a", &[1.0, 0.0, 0.0]).unwrap();
        engine.put_indexed(b"b", &[0.0, 1.0, 0.0]).unwrap();
        engine.close().unwrap();
    }

    // Overwrite the snapshot with garbage.
    let snapshots = dir.snapshots();
    assert_eq!(snapshots.len(), 1);
    dir.store(&snapshots[0], b"not a valid snapshot");

    // Reopen should still succeed via full rebuild from SSTables.
    let engine = Db::open(&dir, options).unwrap();
    assert_eq!(engine.vector_count(), 2, "full rebuild should recover both");
    let r = engine.nearest(&[1.0, 0.0, 0.0], 1).unwrap();
    assert_eq!(r[0].key, b"a");
}

#[test]
fn snapshot_recovery_falls_back_when_no_snapshot() {
    // Write vectors but never flush (so no snapshot), then crash. The
    // WAL replay + full rebuild path must recover them.
    let dir = Dir::new();
    let options = dir.options(); // default 4 MiB; no flush

    {
        let engine = Db::open(&dir, options.clone()).unwrap();
        engine.put_indexed(b"a", &[1.0, 0.0, 0.0]).unwrap();
        engine.put_indexed(b"b", &[0.0, 1.0, 0.0]).unwrap();
        engine.close().unwrap();
    }

    // No snapshot file should exist (nothing flushed).
    let has_snapshot = !dir.snapshots().is_empty();
    assert!(!has_snapshot, "no snapshot should have been written");

    let engine = Db::open(&dir, options).unwrap();
    assert_eq!(engine.vector_count(), 2);
}

#[test]
fn snapshot_recovery_through_compaction() {
    // Force flushes and a compaction, then reopen. The snapshot's
    // next_sstable_id must correctly identify which SSTables post-date
    // it, even across a compaction that renumbers things.
    let dir = Dir::new();
    let mut options = dir.options();
    options.memtable_max_size_bytes = 1;
    options.l0_compaction_trigger = 2;

    {
        let engine = Db::open(&dir, options.clone()).unwrap();
        for i in 0..6 {
            // Unique per-i vectors: a distinct fractional offset on
            // one axis guarantees no two vectors collide (which would
            // make "nearest" ambiguous).
            let v = vec![1.0, 0.1 * (i as f32 + 1.0), 0.0, 0.0];
            engine
                .put_indexed(format!("v{i}").as_bytes(), &v)
                .unwrap();
        }
        engine.close().unwrap();
    }

    let engine = Db::open(&dir, options).unwrap();
    assert_eq!(engine.vector_count(), 6);
    // Every key should be findable.
    for i in 0..6 {
        let key = format!("v{i}");
        let v = vec![1.0, 0.1 * (i as f32 + 1.0), 0.0, 0.0];
        let r = engine.nearest(&v, 1).unwrap();
        assert_eq!(r[0].key, key.as_bytes(), "wrong nearest for {key}");
    }
}

#[test]
fn snapshot_recovery_matches_full_rebuild() {
    // Build an engine two ways: once normally (snapshot recovery),
    // once forcing the fallback (delete the snapshot). Both should
    // recover identical vector sets.
    let dir1 = Dir::new();
    let dir2 = Dir::new();
    let mut opt1 = dir1.options();
    let mut opt2 = dir2.options();
    opt1.memtable_max_size_bytes = 1;
    opt2.memtable_max_size_bytes = 1;

    let vectors: Vec<(String, Vec<f32>)> = (0..20)
        .map(|i| {
            // Give each vector a unique direction: a base axis plus a
            // distinct fractional offset keyed to i, so no two vectors
            // are identical and "nearest to my own vector" is
            // unambiguous.
            let mut v = vec![0.0f32; 8];
            v[i % 8] = 1.0;
            v[(i + 1) % 8] += 0.5;
            v[0] += 0.01 * (i as f32 + 1.0);
            (format!("key_{i}"), v)
        })
        .collect();

    // Engine 1: normal lifecycle.
    {
        let e = Db::open(&dir1, opt1.clone()).unwrap();
        for (k, v) in &vectors {
            e.put_indexed(k.as_bytes(), v).unwrap();
        }
        e.close().unwrap();
    }
    // Engine 2: same writes.
    {
        let e = Db::open(&dir2, opt2.clone()).unwrap();
        for (k, v) in &vectors {
            e.put_indexed(k.as_bytes(), v).unwrap();
        }
        e.close().unwrap();
    }
    // Force engine 2 into the fallback by deleting its snapshot.
    for name in dir2.snapshots() {
        dir2.remove(&name);
    }

    let e1 = Db::open(&dir1, opt1).unwrap(); // snapshot recovery
    let e2 = Db::open(&dir2, opt2).unwrap(); // full rebuild

    assert_eq!(e1.vector_count(), 20);
    assert_eq!(e2.vector_count(), 20);

    // Both engines return the same nearest neighbor for each key's vec.
    for (k, v) in &vectors {
        let r1 = e1.nearest(v, 1).unwrap();
        let r2 = e2.nearest(v, 1).unwrap();
        assert_eq!(r1[0].key, k.as_bytes());
        assert_eq!(r2[0].key, k.as_bytes());
    }
}

#[test]
fn nearest_filtered_by_key_prefix() {
    let dir = Dir::new();
    let engine = Db::open(&dir, dir.options()).unwrap();
    engine.put_indexed(b"user_1:a", &[1.0, 0.0, 0.0]).unwrap();
    engine.put_indexed(b"user_1:b", &[0.9, 0.1, 0.0]).unwrap();
    engine.put_indexed(b"user_2:c", &[1.0, 0.0, 0.0]).unwrap();

    // Filter to user_1 only. Query is closest to user_2:c, but that's
    // filtered out, so the top result should be a user_1 key.
    let r = engine
        .nearest_filtered(&[1.0, 0.0, 0.0], 5, |k| k.starts_with(b"user_1:"))
        .unwrap();
    assert!(!r.is_empty());
    for result in &r {
        assert!(
            result.key.starts_with(b"user_1:"),
            "leaked non-matching key {:?}",
            result.key
        );
    }
    assert_eq!(r.len(), 2, "both user_1 keys should be returned");
}

#[test]
fn nearest_filtered_pass_all_matches_nearest() {
    let dir = Dir::new();
    let engine = Db::open(&dir, dir.options()).unwrap();
    engine.put_indexed(b"a", &[1.0, 0.0, 0.0]).unwrap();
    engine.put_indexed(b"b", &[0.0, 1.0, 0.0]).unwrap();
    engine.put_indexed(b"c", &[0.0, 0.0, 1.0]).unwrap();

    let unfiltered = engine.nearest(&[1.0, 0.0, 0.0], 3).unwrap();
    let filtered = engine
        .nearest_filtered(&[1.0, 0.0, 0.0], 3, |_| true)
        .unwrap();
    assert_eq!(unfiltered, filtered);
}

#[test]
fn nearest_filtered_pass_none_returns_empty() {
    let dir = Dir::new();
    let engine = Db::open(&dir, dir.options()).unwrap();
    engine.put_indexed(b"a", &[1.0, 0.0, 0.0]).unwrap();
    engine.put_indexed(b"b", &[0.0, 1.0, 0.0]).unwrap();

    let r = engine
        .nearest_filtered(&[1.0, 0.0, 0.0], 5, |_| false)
        .unwrap();
    assert!(r.is_empty());
}

#[test]
fn nearest_filtered_selective_still_finds_k() {
    // Many vectors; a filter that passes only a handful. The adaptive
    // over-query must still find them.
    let dir = Dir::new();
    let engine = Db::open(&dir, dir.options()).unwrap();

    // 100 vectors. Only those with keys ending in "_keep" pass.
    for i in 0..100 {
        let mut v = vec![0.0f32; 8];
        v[i % 8] = 1.0;
        v[0] += 0.001 * (i as f32 + 1.0); // unique direction
        let key = if i % 25 == 0 {
            format!("vec_{i}_keep")
        } else {
            format!("vec_{i}_drop")
        };
        engine.put_indexed(key.as_bytes(), &v).unwrap();
    }

    // 4 keys pass (i = 0, 25, 50, 75). Ask for 4.
    let r = engine
        .nearest_filtered(&[1.0, 0.0, 0.0, 0.0, 0.0, 0.0, 0.0, 0.0], 4, |k| {
            k.ends_with(b"_keep")
        })
        .unwrap();
    assert_eq!(r.len(), 4, "should find all 4 matching vectors");
    for result in &r {
        assert!(result.key.ends_with(b"_keep"));
    }
}

#[test]
fn nearest_filtered_respects_distance_order() {
    let dir = Dir::new();
    let engine = Db::open(&dir, dir.options()).unwrap();
    // All pass the filter; verify ordering is preserved.
    engine.put_indexed(b"near", &[1.0, 0.01, 0.0]).unwrap();
    engine.put_indexed(b"mid", &[0.7, 0.7, 0.0]).unwrap();
    engine.put_indexed(b"far", &[0.0, 1.0, 0.0]).unwrap();

    let r = engine
        .nearest_filtered(&[1.0, 0.0, 0.0], 3, |_| true)
        .unwrap();
    assert_eq!(r[0].key, b"near");
    assert_eq!(r[1].key, b"mid");
    assert_eq!(r[2].key, b"far");
}

#[test]
fn nearest_filtered_k_zero_returns_empty() {
    let dir = Dir::new();
    let engine = Db::open(&dir, dir.options()).unwrap();
    engine.put_indexed(b"a", &[1.0, 0.0]).unwrap();
    let r = engine.nearest_filtered(&[1.0, 0.0], 0, |_| true).unwrap();
    assert!(r.is_empty());
}

#[test]
fn nearest_filtered_on_empty_engine() {
    let dir = Dir::new();
    let engine = Db::open(&dir, dir.options()).unwrap();
    let r = engine
        .nearest_filtered(&[1.0, 0.0, 0.0], 5, |_| true)
        .unwrap();
    assert!(r.is_empty());
}

/// A key reads as the last write of it, whatever was flushed, compacted or
/// reopened in between.
#[test]
fn reads_match_a_reference_model() {
    for seed in 0..6u64 {
        let mut rng = SmallRng::seed_from_u64(seed);
        let dir = Dir::new();
        let mut options = dir.options();
        options.memtable_max_size_bytes = 200;
        options.l0_compaction_trigger = 3;
        options.bloom_bits_per_key = if seed % 2 == 0 { 10 } else { 0 };
        let mut reference = std::collections::BTreeMap::new();
        for _ in 0..4 {
            let engine = Db::open(&dir, options.clone()).unwrap();
            for _ in 0..60 {
                let key = format!("k{:02}", rng.gen_range(0..25));
                match rng.gen_range(0..8) {
                    0 | 1 => {
                        engine.delete(key.as_bytes()).unwrap();
                        reference.remove(&key);
                    }
                    2 => engine.flush().unwrap(),
                    _ => {
                        let value: Vec<u8> =
                            (0..rng.gen_range(0..20)).map(|_| rng.gen()).collect();
                        engine.put(key.as_bytes(), &value).unwrap();
                        reference.insert(key, value);
                    }
                }
            }
            for i in 0..25 {
                let key = format!("k{i:02}");
                assert_eq!(
                    engine.get(key.as_bytes()).unwrap(),
                    reference.get(&key).cloned(),
                    "{key}"
                );
            }
            // Half of the time without a close, as after a crash.
            if rng.gen() {
                engine.close().unwrap();
            }
        }
    }
}

/// A log that is cut off in a record loses that record and no other.
#[test]
fn torn_log_loses_the_last_write_only() {
    let dir = Dir::new();
    {
        let engine = Db::open(&dir, dir.options()).unwrap();
        engine.put(b"a", b"1").unwrap();
        engine.put(b"b", b"2").unwrap();
    }
    let log = dir.content("wal.log").unwrap();
    dir.store("wal.log", &log[..log.len() - 1]);
    let engine = Db::open(&dir, dir.options()).unwrap();
    assert_eq!(engine.get(b"a").unwrap(), Some(b"1".to_vec()));
    assert_eq!(engine.get(b"b").unwrap(), None);
}

/// A damaged log stops the engine from opening.
#[test]
fn damaged_log_is_reported() {
    let dir = Dir::new();
    {
        let engine = Db::open(&dir, dir.options()).unwrap();
        engine.put(b"a", b"1").unwrap();
        engine.put(b"b", b"2").unwrap();
    }
    let mut log = dir.content("wal.log").unwrap();
    log[26] ^= 0x01;
    dir.store("wal.log", &log);
    let err = Db::open(&dir, dir.options()).err().unwrap();
    assert!(matches!(err, Error::Corruption(_)), "got {err:?}");
}

/// A table that cannot be read stops the engine from opening.
#[test]
fn damaged_table_is_reported() {
    let dir = Dir::new();
    {
        let engine = Db::open(&dir, dir.options()).unwrap();
        engine.put(b"a", b"1").unwrap();
        engine.flush().unwrap();
    }
    let names = dir.names();
    let table = names.iter().find(|n| n.starts_with("sst_L0_")).unwrap();
    assert_eq!(table, "sst_L0_000000.sst");
    dir.store(table, b"short");
    let err = Db::open(&dir, dir.options()).err().unwrap();
    assert!(matches!(err, Error::Corruption(_)), "got {err:?}");
}

/// Leftovers of an interrupted flush are removed when the engine is opened.
#[test]
fn leftovers_are_removed_on_open() {
    let dir = Dir::new();
    dir.store("sst_L0_000007.sst.tmp", b"half a table");
    dir.store("notes.txt", b"not ours");
    let engine = Db::open(&dir, dir.options()).unwrap();
    engine.put(b"a", b"1").unwrap();
    drop(engine);
    let names = dir.names();
    assert!(!names.iter().any(|n| n.ends_with(".tmp")));
    assert_eq!(dir.content("notes.txt").unwrap(), b"not ours");
}

/// Of several bottom tables the newest counts, and top tables that it covers
/// are dropped.
#[test]
fn superseded_tables_are_dropped_on_open() {
    let dir = Dir::new();
    let mut options = dir.options();
    options.memtable_max_size_bytes = 1;
    options.l0_compaction_trigger = 2;
    {
        let engine = Db::open(&dir, options.clone()).unwrap();
        engine.put(b"a", b"1").unwrap();
    }
    let covered = dir.content("sst_L0_000000.sst").unwrap();
    {
        let engine = Db::open(&dir, options.clone()).unwrap();
        engine.put(b"a", b"2").unwrap();
        assert_eq!(engine.level_counts(), (0, 1));
    }
    // As if the removal of the old table had not happened.
    dir.store("sst_L0_000000.sst", &covered);
    let engine = Db::open(&dir, options).unwrap();
    assert_eq!(engine.level_counts(), (0, 1));
    assert_eq!(engine.get(b"a").unwrap(), Some(b"2".to_vec()));
    drop(engine);
    assert!(dir.content("sst_L0_000000.sst").is_none());
}

#[test]
fn refused_keys_and_values_change_nothing() {
    let dir = Dir::new();
    let engine = Db::open(&dir, dir.options()).unwrap();
    let err = engine.put(b"", b"v").unwrap_err();
    assert!(matches!(err, Error::InvalidArgument(_)));
    let err = engine.put(&vec![1; 65537], b"v").unwrap_err();
    assert!(matches!(err, Error::InvalidArgument(_)));
    let err = engine.delete(b"").unwrap_err();
    assert!(matches!(err, Error::InvalidArgument(_)));
    assert_eq!(engine.memtable_len(), 0);
    engine.put(&vec![1; 65536], b"v").unwrap();
    assert_eq!(engine.memtable_len(), 1);
}

#[test]
fn closed_engine_refuses_everything() {
    let dir = Dir::new();
    let engine = Db::open(&dir, dir.options()).unwrap();
    engine.close().unwrap();
    assert!(matches!(engine.put(b"k", b"v"), Err(Error::Closed)));
    assert!(matches!(engine.delete(b"k"), Err(Error::Closed)));
    assert!(matches!(engine.put_indexed(b"k", &[1.0]), Err(Error::Closed)));
    assert!(matches!(engine.get(b"k"), Err(Error::Closed)));
    assert!(matches!(engine.flush(), Err(Error::Closed)));
    assert!(matches!(engine.nearest(&[1.0], 1), Err(Error::Closed)));
    assert!(matches!(engine.nearest_filtered(&[1.0], 1, |_| true), Err(Error::Closed)));
    engine.close().unwrap();
}

/// Keys of all lengths and bytes can be told apart.
#[test]
fn keys_are_plain_bytes() {
    let dir = Dir::new();
    let engine = Db::open(&dir, dir.options()).unwrap();
    let keys: [&[u8]; 5] = [b"\x00", b"\x00\x00", b"\xff", b"a", b"a\x00"];
    for (i, key) in keys.iter().enumerate() {
        engine.put(key, &[i as u8]).unwrap();
    }
    engine.flush().unwrap();
    for (i, key) in keys.iter().enumerate() {
        assert_eq!(engine.get(key).unwrap(), Some(vec![i as u8]));
    }
}

#[test]
fn query_of_another_dimension_is_refused() {
    let dir = Dir::new();
    let engine = Db::open(&dir, dir.options()).unwrap();
    engine.put_indexed(b"a", &[1.0, 0.0]).unwrap();
    let err = engine.nearest(&[1.0, 0.0, 0.0], 1).unwrap_err();
    assert!(matches!(err, Error::InvalidArgument(_)));
    let err = engine.nearest_filtered(&[1.0], 1, |_| true).unwrap_err();
    assert!(matches!(err, Error::InvalidArgument(_)));
}

#[test]
fn engine_tells_its_path() {
    let dir = Dir::new();
    let engine = Db::open(&dir, Options::new("some/where".to_string())).unwrap();
    assert_eq!(engine.engine.borrow().as_ref().unwrap().path(), "some/where");
}

#[test]
fn options_have_documented_defaults() {
    let options = Options::new("db".to_string());
    assert_eq!(options.memtable_max_size_bytes, 4 * 1024 * 1024);
    assert_eq!(options.l0_compaction_trigger, 4);
    assert_eq!(options.bloom_bits_per_key, 10);
    assert_eq!(options.hnsw_params, sastran::hnsw::HnswParams::default());
}

/// A plain value takes the embedding before it out of the index, also for an
/// engine that is opened later, with or without a snapshot.
#[test]
fn put_takes_a_key_out_of_the_index() {
    let dir = Dir::new();
    {
        let engine = Db::open(&dir, dir.options()).unwrap();
        engine.put_indexed(b"a", &[1.0, 0.0]).unwrap();
        engine.put_indexed(b"b", &[0.0, 1.0]).unwrap();
        engine.flush().unwrap();
        assert_eq!(engine.vector_count(), 2);
        engine.put(b"a", b"plain").unwrap();
        assert_eq!(engine.vector_count(), 1);
        let keys: Vec<_> = engine.nearest(&[1.0, 0.0], 5).unwrap().into_iter().map(|h| h.key).collect();
        assert_eq!(keys, vec![b"b".to_vec()]);
        engine.flush().unwrap();
    }
    {
        let engine = Db::open(&dir, dir.options()).unwrap();
        assert_eq!(engine.vector_count(), 1);
        assert_eq!(engine.get(b"a").unwrap(), Some(b"plain".to_vec()));
    }
    for name in dir.snapshots() {
        dir.remove(&name);
    }
    let engine = Db::open(&dir, dir.options()).unwrap();
    assert_eq!(engine.vector_count(), 1);
}

#[test]
fn delete_lowers_the_vector_count() {
    let dir = Dir::new();
    let engine = Db::open(&dir, dir.options()).unwrap();
    engine.put_indexed(b"a", &[1.0, 0.0]).unwrap();
    engine.put(b"b", b"plain").unwrap();
    engine.delete(b"b").unwrap();
    assert_eq!(engine.vector_count(), 1);
    engine.delete(b"a").unwrap();
    assert_eq!(engine.vector_count(), 0);
}

/// What follows the last whole record of a log is cut off, so that later
/// writes are found again.
#[test]
fn writes_behind_a_torn_log_survive() {
    let dir = Dir::new();
    {
        let engine = Db::open(&dir, dir.options()).unwrap();
        engine.put(b"a", b"1").unwrap();
        engine.put(b"b", b"2").unwrap();
    }
    let whole = dir.content("wal.log").unwrap();
    for cut in 0..whole.len() {
        dir.store("wal.log", &whole[..cut]);
        dir.store("wal.log.tmp", b"left over");
        {
            let engine = Db::open(&dir, dir.options()).unwrap();
            engine.put(b"c", b"3").unwrap();
        }
        assert!(dir.content("wal.log.tmp").is_none());
        let engine = Db::open(&dir, dir.options()).unwrap();
        let first = (cut >= 27).then(|| b"1".to_vec());
        assert_eq!(engine.get(b"a").unwrap(), first, "cut at {cut}");
        assert_eq!(engine.get(b"b").unwrap(), None, "cut at {cut}");
        assert_eq!(engine.get(b"c").unwrap(), Some(b"3".to_vec()), "cut at {cut}");
    }
}

#[test]
fn open_sweeps_what_does_not_count() {
    let dir = Dir::new();
    let mut options = dir.options();
    options.memtable_max_size_bytes = 1;
    {
        let engine = Db::open(&dir, options.clone()).unwrap();
        engine.put_indexed(b"a", &[1.0]).unwrap();
    }
    let snapshot = dir.content("hnsw_000001.idx").unwrap();
    dir.store("hnsw_000000.idx", &snapshot);
    dir.store("hnsw_000001.idx.tmp", b"x");
    dir.store("sst_L0_000001.sst.tmp", b"x");
    dir.store("sst_L1_000007.tmp", b"x");
    dir.store("notes.txt", b"mine");
    drop(Db::open(&dir, options).unwrap());
    let mut names = dir.names();
    names.sort();
    assert_eq!(names, ["hnsw_000001.idx", "notes.txt", "sst_L0_000000.sst", "wal.log"]);
}

/// A compaction removes its inputs, also if nothing is left of them: a key
/// that was deleted does not come back.
#[test]
fn compaction_leaves_no_input_behind() {
    let dir = Dir::new();
    let mut options = dir.options();
    options.memtable_max_size_bytes = 1;
    options.l0_compaction_trigger = 2;
    {
        let engine = Db::open(&dir, options.clone()).unwrap();
        engine.put(b"a", b"1").unwrap();
        engine.delete(b"a").unwrap();
        assert_eq!(engine.level_counts(), (0, 0));
    }
    assert!(dir.names().iter().all(|n| !n.ends_with(".sst")));
    let engine = Db::open(&dir, options).unwrap();
    assert_eq!(engine.get(b"a").unwrap(), None);
}

/// A table under another name than its number gives it is removed like the
/// others.
#[test]
fn compaction_removes_tables_under_their_own_names() {
    let dir = Dir::new();
    let mut options = dir.options();
    options.memtable_max_size_bytes = 1;
    options.l0_compaction_trigger = 2;
    {
        let engine = Db::open(&dir, options.clone()).unwrap();
        engine.put(b"a", b"1").unwrap();
    }
    let table = dir.content("sst_L0_000000.sst").unwrap();
    dir.remove("sst_L0_000000.sst");
    dir.store("sst_L0_0.sst", &table);
    {
        let engine = Db::open(&dir, options.clone()).unwrap();
        assert_eq!(engine.get(b"a").unwrap(), Some(b"1".to_vec()));
        engine.delete(b"a").unwrap();
    }
    assert!(dir.content("sst_L0_0.sst").is_none());
    let engine = Db::open(&dir, options).unwrap();
    assert_eq!(engine.get(b"a").unwrap(), None);
}

/// A filtered query finds every key that passes, though no walk of the graph
/// reaches them all.
#[test]
fn filtered_query_is_complete() {
    let dir = Dir::new();
    let mut options = dir.options();
    options.hnsw_params.metric = DistanceMetric::EuclideanSquared;
    options.hnsw_params.m = 1;
    options.hnsw_params.m_max_0 = 1;
    let engine = Db::open(&dir, options).unwrap();
    let mut rng = SmallRng::seed_from_u64(7);
    for i in 0..60u32 {
        let v: Vec<f32> = (0..4).map(|_| rng.gen_range(-1.0..1.0)).collect();
        engine.put_indexed(format!("key_{i:02}").as_bytes(), &v).unwrap();
    }
    let query = [0.1, 0.2, 0.3, 0.4];
    assert!(engine.nearest(&query, 60).unwrap().len() < 60);
    let all = engine.nearest_filtered(&query, 100, |_| true).unwrap();
    assert_eq!(all.len(), 60);
    assert!(all.windows(2).all(|w| w[0].distance <= w[1].distance));
    let even = engine.nearest_filtered(&query, 100, |k| k[5] % 2 == 0).unwrap();
    assert_eq!(even.len(), 30);
    let few = engine.nearest_filtered(&query, 50, |_| true).unwrap();
    assert_eq!(few.len(), 50);
    let closest: Vec<_> = all.iter().take(50).map(|h| h.distance).collect();
    assert_eq!(few.iter().map(|h| h.distance).collect::<Vec<_>>(), closest);
}

#[test]
fn file_names_are_parsed_with_their_extensions() {
    assert_eq!(sst_filename(1, 42), b"sst_L1_000042.sst");
    assert_eq!(parse_sst_filename(b"sst_L1_000042.sst"), Some((1, 42)));
    assert_eq!(parse_sst_filename(b"sst_L1_000042.tmp"), None);
    assert_eq!(parse_sst_filename(b"sst_L1_000042"), None);
    assert_eq!(parse_sst_filename(b"sst_L1_000042.sst.tmp"), None);
    assert_eq!(parse_sst_filename(b"sst_L256_000042.sst"), None);
    assert_eq!(snapshot_filename(7), b"hnsw_000007.idx");
    assert_eq!(parse_snapshot_filename(b"hnsw_000007.idx"), Some(7));
    assert_eq!(parse_snapshot_filename(b"hnsw_000007.tmp"), None);
    assert_eq!(parse_snapshot_filename(b"hnsw_000007.idx.tmp"), None);
    assert_eq!(parse_snapshot_filename(b"hnsw_x.idx"), None);
}

/// An embedding that the index cannot take changes nothing, and the engine
/// opens again.
#[test]
fn embedding_that_is_refused_is_not_written() {
    let dir = Dir::new();
    let mut options = dir.options();
    options.hnsw_params.metric = DistanceMetric::Cosine;
    {
        let engine = Db::open(&dir, options.clone()).unwrap();
        engine.put(b"a", b"plain").unwrap();
        let zero = engine.put_indexed(b"a", &[0.0, 0.0]);
        assert!(matches!(zero, Err(Error::InvalidArgument(_))), "{zero:?}");
        assert_eq!(engine.get(b"a").unwrap(), Some(b"plain".to_vec()));
        // It does not set the dimension either.
        engine.put_indexed(b"b", &[1.0, 2.0, 2.0]).unwrap();
        assert!(engine.put_indexed(b"b", &[0.0, 0.0, 0.0]).is_err());
        assert_eq!(engine.vector_count(), 1);
        assert_eq!(engine.nearest(&[1.0, 2.0, 2.0], 1).unwrap()[0].key, b"b");
    }
    let engine = Db::open(&dir, options).unwrap();
    assert_eq!(engine.get(b"a").unwrap(), Some(b"plain".to_vec()));
    assert_eq!(engine.vector_count(), 1);
}

/// The log of a new engine that lost power holds a part of its header at most;
/// other bytes are no log.
#[test]
fn log_that_was_being_started_is_started_anew() {
    let header = b"SASTWAL1\x01\0\0\0";
    for cut in 0..=header.len() {
        let dir = Dir::new();
        dir.store("wal.log", &header[..cut]);
        {
            let engine = Db::open(&dir, dir.options()).unwrap();
            engine.put(b"k", b"v").unwrap();
        }
        assert!(dir.content("wal.log").unwrap().starts_with(header));
        let engine = Db::open(&dir, dir.options()).unwrap();
        assert_eq!(engine.get(b"k").unwrap(), Some(b"v".to_vec()));
    }
    let dir = Dir::new();
    dir.store("wal.log", b"SASTX");
    assert!(matches!(Db::open(&dir, dir.options()), Err(Error::Corruption(_))));
}

/// Damage in a block is reported for the keys that lie in it, as corruption; a
/// block that the file ends before cannot be read.
#[test]
fn damage_in_a_table_is_reported_for_its_keys() {
    let dir = Dir::new();
    let mut options = dir.options();
    options.memtable_max_size_bytes = 1;
    {
        let engine = Db::open(&dir, options.clone()).unwrap();
        engine.put(b"m", b"1").unwrap();
    }
    let mut table = dir.content("sst_L0_000000.sst").unwrap();
    table[4] ^= 0xff;
    let engine = Db::open(&dir, options).unwrap();
    drop(engine);
    dir.store("sst_L0_000000.sst", &table);
    let opened = Db::open(&dir, dir.options());
    // The index is built of the tables, or taken from the snapshot.
    match opened {
        Ok(engine) => {
            assert!(matches!(engine.get(b"m"), Err(Error::Corruption(_))));
            assert_eq!(engine.get(b"a").unwrap(), None);
        }
        Err(e) => assert!(matches!(e, Error::Corruption(_)), "{e:?}"),
    }
}

/// An engine does not open on a table that is none, nor on a damaged log.
#[test]
fn open_reports_damage_as_corruption() {
    let dir = Dir::new();
    dir.store("sst_L0_000003.sst", b"no table");
    assert!(matches!(Db::open(&dir, dir.options()), Err(Error::Corruption(_))));
    let dir = Dir::new();
    {
        let engine = Db::open(&dir, dir.options()).unwrap();
        engine.put(b"k", b"v").unwrap();
        engine.put(b"l", b"w").unwrap();
    }
    let mut log = dir.content("wal.log").unwrap();
    log[12 + 14] ^= 1;
    dir.store("wal.log", &log);
    assert!(matches!(Db::open(&dir, dir.options()), Err(Error::Corruption(_))));
}

/// Every table has a filter for its keys, unless filters are switched off.
#[test]
fn tables_have_filters_of_the_size_that_is_asked_for() {
    for bits_per_key in [0, 1, 10, 16] {
        let dir = Dir::new();
        let mut options = dir.options();
        options.bloom_bits_per_key = bits_per_key;
        options.l0_compaction_trigger = 2;
        {
            let engine = Db::open(&dir, options.clone()).unwrap();
            for i in 0..20u8 {
                engine.put(&[b'k', i], &[i]).unwrap();
            }
            engine.flush().unwrap();
        }
        let mut fs = MemFs::new();
        let mut w = SsTableWriter::create(&mut fs, b"t", 20, bits_per_key).unwrap();
        for i in 0..20u8 {
            w.add(&mut fs, &[b'k', i], &Entry::Put(vec![i])).unwrap();
        }
        w.finish(&mut fs).unwrap();
        assert_eq!(dir.content("sst_L0_000000.sst"), fs.content(b"t"));
        {
            let engine = Db::open(&dir, options).unwrap();
            engine.put(&[b'l'], b"x").unwrap();
            engine.flush().unwrap();
            assert_eq!(engine.level_counts(), (0, 1));
        }
        // Two tables of one block each: a filter for 512 keys.
        let mut fs = MemFs::new();
        let mut w = SsTableWriter::create(&mut fs, b"t", 512, bits_per_key).unwrap();
        for i in 0..20u8 {
            w.add(&mut fs, &[b'k', i], &Entry::Put(vec![i])).unwrap();
        }
        w.add(&mut fs, &[b'l'], &Entry::Put(b"x".to_vec())).unwrap();
        w.finish(&mut fs).unwrap();
        assert_eq!(dir.content("sst_L1_000002.sst"), fs.content(b"t"));
    }
}

/// After any history the embeddings are found again, whatever became of the
/// snapshot.
#[test]
fn history_survives_without_its_snapshot() {
    for damage in 0..3 {
        let dir = Dir::new();
        let mut options = dir.options();
        options.memtable_max_size_bytes = 60;
        options.l0_compaction_trigger = 3;
        {
            let engine = Db::open(&dir, options.clone()).unwrap();
            for i in 0..30u32 {
                let key = format!("key_{}", i % 8);
                match i % 4 {
                    0 => engine.put(key.as_bytes(), b"plain").unwrap(),
                    3 => engine.delete(key.as_bytes()).unwrap(),
                    _ => engine.put_indexed(key.as_bytes(), &[i as f32, 1.0]).unwrap(),
                }
            }
        }
        let snapshots = dir.snapshots();
        assert_eq!(snapshots.len(), 1);
        match damage {
            0 => {}
            1 => dir.remove(&snapshots[0]),
            _ => dir.store(&snapshots[0], b"damaged"),
        }
        let engine = Db::open(&dir, options).unwrap();
        // Of the last eight writes, each to a key of its own, four were of
        // embeddings.
        assert_eq!(engine.vector_count(), 4);
        let mut found: Vec<_> =
            engine.nearest(&[1.0, 1.0], 9).unwrap().into_iter().map(|h| h.key).collect();
        found.sort();
        assert_eq!(found, [b"key_1", b"key_2", b"key_5", b"key_6"]);
        for i in 22..30u32 {
            let value = engine.get(format!("key_{}", i % 8).as_bytes()).unwrap();
            match i % 4 {
                0 => assert_eq!(value, Some(b"plain".to_vec())),
                3 => assert_eq!(value, None),
                _ => assert_eq!(value.unwrap()[..4], (i as f32).to_le_bytes()),
            }
        }
    }
}
