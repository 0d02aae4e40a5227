//! Storage that fails: what was acknowledged stays.

use sastran::hnsw::math::VectorFns;
use sastran::hnsw::DistanceMetric;
use sastran::io::mem::MemFs;
use sastran::io::{FileAppend, FileRead, Files, Io, Name};
use sastran::{Engine, Error, Options, Result};
use std::cell::Cell;
use std::collections::{BTreeMap, BTreeSet};

/// Files that can be changed a number of times; then changes fail, the first of
/// them halfway, for as long as the outage lasts.
struct FailingFs {
    fs: MemFs,
    left: Cell<usize>,
    outage: Cell<usize>,
}

fn failure() -> Error {
    Error::Io(std::io::Error::from(std::io::ErrorKind::Other))
}

impl FailingFs {
    /// True if one more change works.
    fn works(&self) -> bool {
        if self.left.get() == 0 {
            let outage = self.outage.get();
            self.outage.set(outage.saturating_sub(1));
            return outage == 0;
        }
        self.left.set(self.left.get() - 1);
        true
    }
}

impl FileRead for FailingFs {
    // Only contracts speak of these.

    fn files(&self) -> Files {
        unreachable!("not called")
    }

    fn is_synced(&self, _name: Name) -> bool {
        unreachable!("not called")
    }

    fn is_linked(&self, _name: Name) -> bool {
        unreachable!("not called")
    }

    fn is_reliable(&self) -> bool {
        unreachable!("not called")
    }

    fn read_at(&self, name: &[u8], offset: u64, len: usize) -> Result<Vec<u8>> {
        self.fs.read_at(name, offset, len)
    }

    fn len(&self, name: &[u8]) -> Result<u64> {
        self.fs.len(name)
    }
}

impl FileAppend for FailingFs {
    fn append(&mut self, name: &[u8], bytes: &[u8]) -> Result<()> {
        let last = self.left.get() == 1 && self.outage.get() > 0;
        if !self.works() {
            return Err(failure());
        }
        if last {
            self.fs.append(name, &bytes[..bytes.len() / 2])?;
            return Err(failure());
        }
        self.fs.append(name, bytes)
    }

    fn sync(&mut self, name: &[u8]) -> Result<()> {
        if !self.works() {
            return Err(failure());
        }
        self.fs.sync(name)
    }
}

impl Io for FailingFs {
    fn open_append(&mut self, name: &[u8]) -> Result<()> {
        if !self.works() {
            return Err(failure());
        }
        self.fs.open_append(name)
    }

    fn open_read(&self, name: &[u8]) -> Result<()> {
        self.fs.open_read(name)
    }

    fn sync_dir(&mut self, dir: &str) -> Result<()> {
        if !self.works() {
            return Err(failure());
        }
        self.fs.sync_dir(dir)
    }

    fn create_dir_all(&mut self, dir: &str) -> Result<()> {
        self.fs.create_dir_all(dir)
    }

    fn rename(&mut self, from: &[u8], to: &[u8]) -> Result<()> {
        if !self.works() {
            return Err(failure());
        }
        self.fs.rename(from, to)
    }

    fn remove_file(&mut self, name: &[u8]) -> Result<()> {
        if !self.works() {
            return Err(failure());
        }
        self.fs.remove_file(name)
    }

    fn list_dir(&self, dir: &str) -> Result<Vec<Vec<u8>>> {
        self.fs.list_dir(dir)
    }
}

type DistanceFn = fn(DistanceMetric, &[u32], &[u32]) -> u32;
type UnitFn = fn(&[u32]) -> Option<Vec<u32>>;
type LevelFn = fn(u64, usize, u64) -> u8;
type Math = VectorFns<DistanceFn, UnitFn, LevelFn>;

fn distance(_metric: DistanceMetric, a: &[u32], b: &[u32]) -> u32 {
    let sum: f32 = a
        .iter()
        .zip(b)
        .map(|(x, y)| (f32::from_bits(*x) - f32::from_bits(*y)).powi(2))
        .sum();
    sum.to_bits()
}

fn unit(v: &[u32]) -> Option<Vec<u32>> {
    Some(v.to_vec())
}

fn level(_seed: u64, _m: usize, draw: u64) -> u8 {
    if draw % 4 == 0 {
        1
    } else {
        0
    }
}

fn math() -> Math {
    VectorFns { distance: distance as DistanceFn, normalize: unit as UnitFn, level: level as LevelFn }
}

fn options() -> Options {
    let mut options = Options::new("db".to_string());
    options.memtable_max_size_bytes = 40;
    options.l0_compaction_trigger = 2;
    options
}

fn key(i: u32) -> Vec<u8> {
    format!("key_{}", i % 7).into_bytes()
}

/// The writes of a run: values, embeddings, and deletions of some keys.
fn write<I: Io>(engine: &mut Engine<I, Math>, i: u32) -> Result<()> {
    match i % 5 {
        0 | 1 => engine.put(&key(i), format!("value_{i}").as_bytes()),
        2 | 3 => engine.put_indexed(&key(i), &[(i as f32).to_bits(), 1.0f32.to_bits()]),
        _ => engine.delete(&key(i)),
    }
}

/// What the key of write `i` holds after it.
fn written(i: u32) -> Option<Vec<u8>> {
    match i % 5 {
        0 | 1 => Some(format!("value_{i}").into_bytes()),
        2 | 3 => {
            let mut b = (i as f32).to_le_bytes().to_vec();
            b.extend_from_slice(&1.0f32.to_le_bytes());
            Some(b)
        }
        _ => None,
    }
}

type Model = BTreeMap<Vec<u8>, Vec<u8>>;

fn update(model: &mut Model, i: u32) {
    match written(i) {
        Some(v) => model.insert(key(i), v),
        None => model.remove(&key(i)),
    };
}

fn shows<I: Io>(engine: &Engine<I, Math>, model: &Model) -> bool {
    (0..7).all(|i| engine.get(&key(i)).unwrap() == model.get(&key(i)).cloned())
}

/// Writes until the storage fails after `budget` changes. Returns the files,
/// the state before the write that failed, and that write, if one did.
fn run(budget: usize) -> (MemFs, Model, Option<u32>) {
    let mut model = Model::new();
    let fs = FailingFs { fs: MemFs::new(), left: Cell::new(1000), outage: Cell::new(usize::MAX) };
    let mut engine = Engine::open(fs, math(), options()).unwrap();
    let fs = engine.into_io();
    fs.left.set(budget);
    engine = Engine::open(fs, math(), options()).unwrap();
    for i in 0..40 {
        match write(&mut engine, i) {
            Ok(()) => update(&mut model, i),
            Err(e) => {
                assert!(matches!(e, Error::Io(_)), "{e:?}");
                let mut after = model.clone();
                update(&mut after, i);
                assert!(shows(&engine, &model) || shows(&engine, &after));
                return (engine.into_io().fs, model, Some(i));
            }
        }
    }
    (engine.into_io().fs, model, None)
}

#[test]
fn failed_write_is_there_or_not_and_nothing_else_is_lost() {
    let mut failures = 0;
    for budget in 1.. {
        let (fs, model, failed) = run(budget);
        let Some(i) = failed else { break };
        failures += 1;
        let reopened = Engine::open(fs, math(), options()).unwrap();
        let mut after = model.clone();
        update(&mut after, i);
        assert!(
            shows(&reopened, &model) || shows(&reopened, &after),
            "write {i} failed after {budget} changes"
        );
    }
    assert!(failures > 100, "{failures}");
}

#[test]
fn writes_after_an_outage_survive() {
    let mut failures = 0;
    for outage in [1, 2, 5] {
        for budget in 1..200 {
            let fs = FailingFs {
                fs: MemFs::new(),
                left: Cell::new(1000),
                outage: Cell::new(outage),
            };
            let engine = Engine::open(fs, math(), options()).unwrap();
            let fs = engine.into_io();
            fs.left.set(budget);
            let mut engine = Engine::open(fs, math(), options()).unwrap();
            let mut model = Model::new();
            for i in 0..40 {
                let mut after = model.clone();
                update(&mut after, i);
                match write(&mut engine, i) {
                    Ok(()) => model = after,
                    // What is left of a flush that failed stands in the way of
                    // the next one; the record is written all the same.
                    Err(e) => {
                        assert!(matches!(e, Error::Io(_) | Error::InvalidArgument(_)), "{e:?}");
                        failures += 1;
                        if shows(&engine, &after) {
                            model = after;
                        }
                    }
                }
                assert!(shows(&engine, &model));
            }
            if let Err(Error::Io(_)) = engine.put(b"last", b"value") {
                continue;
            }
            let reopened = Engine::open(engine.into_io().fs, math(), options()).unwrap();
            assert!(shows(&reopened, &model), "outage of {outage} after {budget} changes");
            assert_eq!(reopened.get(b"last").unwrap(), Some(b"value".to_vec()));
        }
    }
    assert!(failures > 400, "{failures}");
}

/// However many writes failed, the files hold what the engine showed, or that
/// with one of the writes that failed.
#[test]
fn failures_lose_nothing() {
    let mut failures = 0;
    for budget in 1..200 {
        for outage in [2, 4, usize::MAX] {
            let fs = FailingFs {
                fs: MemFs::new(),
                left: Cell::new(1000),
                outage: Cell::new(outage),
            };
            let engine = Engine::open(fs, math(), options()).unwrap();
            let fs = engine.into_io();
            fs.left.set(budget);
            let mut engine = Engine::open(fs, math(), options()).unwrap();
            let mut model = Model::new();
            let mut failed = Vec::new();
            for i in 0..40 {
                let mut after = model.clone();
                update(&mut after, i);
                if write(&mut engine, i).is_ok() {
                    model = after;
                } else if shows(&engine, &after) {
                    model = after;
                    failed.push(i);
                } else {
                    failed.push(i);
                }
                assert!(shows(&engine, &model));
                if failed.len() == 5 {
                    break;
                }
            }
            failures += failed.len();
            let reopened = Engine::open(engine.into_io().fs, math(), options()).unwrap();
            let more = failed.iter().any(|i| {
                let mut after = model.clone();
                update(&mut after, *i);
                shows(&reopened, &after)
            });
            assert!(shows(&reopened, &model) || more, "outage of {outage} after {budget}");
        }
    }
    assert!(failures > 1000, "{failures}");
}

#[test]
fn run_without_failures_matches_the_model() {
    let (fs, model, failed) = run(100_000);
    assert_eq!(failed, None);
    let reopened = Engine::open(fs, math(), options()).unwrap();
    assert!(shows(&reopened, &model));
    assert!(reopened.sstable_count() > 0);
}

#[test]
fn found_keys_hold_the_embeddings_that_are_compared() {
    let (fs, model, _) = run(100_000);
    let engine = Engine::open(fs, math(), options()).unwrap();
    let query = [20.0f32.to_bits(), 1.0f32.to_bits()];
    let found = engine.nearest(&query, 10).unwrap();
    assert!(!found.is_empty());
    for hit in &found {
        let value = &model[&hit.key];
        assert!(!value.starts_with(b"value_"));
        let x = f32::from_le_bytes(value[..4].try_into().unwrap());
        assert_eq!(f32::from_bits(hit.distance), (x - 20.0) * (x - 20.0));
    }
}

#[test]
fn failed_close_leaves_the_engine_open() {
    let fs = FailingFs { fs: MemFs::new(), left: Cell::new(1000), outage: Cell::new(usize::MAX) };
    let mut engine = Engine::open(fs, math(), options()).unwrap();
    engine.put(b"k", b"v").unwrap();
    let fs = engine.into_io();
    fs.left.set(1);
    let mut engine = Engine::open(fs, math(), options()).unwrap();
    assert!(matches!(engine.close(), Err(Error::Io(_))));
    assert_eq!(engine.get(b"k").unwrap(), Some(b"v".to_vec()));
}

/// Files of which a loss of power leaves what was synced, under names that
/// were synced.
struct LossyFs {
    fs: MemFs,
    synced: BTreeMap<Vec<u8>, Vec<u8>>,
    linked: BTreeSet<Vec<u8>>,
}

impl LossyFs {
    fn new() -> LossyFs {
        LossyFs { fs: MemFs::new(), synced: BTreeMap::new(), linked: BTreeSet::new() }
    }

    /// What a loss of power leaves.
    fn left(&self) -> MemFs {
        let mut fs = MemFs::new();
        for name in self.fs.list_dir("db").unwrap() {
            if let (true, Some(bytes)) = (self.linked.contains(&name), self.synced.get(&name)) {
                fs.store(&name, bytes.clone());
            }
        }
        fs
    }
}

impl FileRead for LossyFs {
    // Only contracts speak of these.

    fn files(&self) -> Files {
        unreachable!("not called")
    }

    fn is_synced(&self, _name: Name) -> bool {
        unreachable!("not called")
    }

    fn is_linked(&self, _name: Name) -> bool {
        unreachable!("not called")
    }

    fn is_reliable(&self) -> bool {
        unreachable!("not called")
    }

    fn read_at(&self, name: &[u8], offset: u64, len: usize) -> Result<Vec<u8>> {
        self.fs.read_at(name, offset, len)
    }

    fn len(&self, name: &[u8]) -> Result<u64> {
        self.fs.len(name)
    }
}

impl FileAppend for LossyFs {
    fn append(&mut self, name: &[u8], bytes: &[u8]) -> Result<()> {
        self.fs.append(name, bytes)
    }

    fn sync(&mut self, name: &[u8]) -> Result<()> {
        self.fs.sync(name)?;
        self.synced.insert(name.to_vec(), self.fs.content(name).unwrap());
        Ok(())
    }
}

impl Io for LossyFs {
    fn open_append(&mut self, name: &[u8]) -> Result<()> {
        self.fs.open_append(name)
    }

    fn open_read(&self, name: &[u8]) -> Result<()> {
        self.fs.open_read(name)
    }

    fn sync_dir(&mut self, dir: &str) -> Result<()> {
        self.linked = self.fs.list_dir(dir)?.into_iter().collect();
        Ok(())
    }

    fn create_dir_all(&mut self, dir: &str) -> Result<()> {
        self.fs.create_dir_all(dir)
    }

    fn rename(&mut self, from: &[u8], to: &[u8]) -> Result<()> {
        self.fs.rename(from, to)?;
        self.linked.remove(from);
        self.linked.remove(to);
        match self.synced.remove(from) {
            Some(bytes) => self.synced.insert(to.to_vec(), bytes),
            None => self.synced.remove(to),
        };
        Ok(())
    }

    fn remove_file(&mut self, name: &[u8]) -> Result<()> {
        self.linked.remove(name);
        self.synced.remove(name);
        self.fs.remove_file(name)
    }

    fn list_dir(&self, dir: &str) -> Result<Vec<Vec<u8>>> {
        self.fs.list_dir(dir)
    }
}

#[test]
fn loss_of_power_loses_nothing_that_was_acknowledged() {
    for writes in 0..40 {
        let mut model = Model::new();
        let mut engine = Engine::open(LossyFs::new(), math(), options()).unwrap();
        for i in 0..writes {
            write(&mut engine, i).unwrap();
            update(&mut model, i);
        }
        let left = engine.into_io().left();
        let reopened = Engine::open(left, math(), options()).unwrap();
        assert!(shows(&reopened, &model), "after {writes} writes");
    }
}

#[test]
fn flush_after_a_torn_log_makes_it_whole() {
    let (mut fs, _, failed) = run(2);
    // The log ends in the middle of the record of the first write.
    assert_eq!(failed, Some(0));
    let whole = 12 + 13 + key(0).len() + "value_0".len();
    let log = fs.content(b"wal.log").unwrap();
    assert!(12 < log.len() && log.len() < whole);
    let mut engine = Engine::open(fs, math(), options()).unwrap();
    engine.put(b"after", b"1").unwrap();
    engine.flush().unwrap();
    engine.put(b"later", b"2").unwrap();
    fs = engine.into_io();
    let reopened = Engine::open(fs, math(), options()).unwrap();
    assert_eq!(reopened.get(b"after").unwrap(), Some(b"1".to_vec()));
    assert_eq!(reopened.get(b"later").unwrap(), Some(b"2".to_vec()));
}

/// A write that could not be appended or synced does not show.
#[test]
fn write_that_is_not_durable_does_not_show() {
    for budget in 0..2 {
        let fs = FailingFs { fs: MemFs::new(), left: Cell::new(1000), outage: Cell::new(usize::MAX) };
        let mut engine = Engine::open(fs, math(), Options::new("db".to_string())).unwrap();
        engine.put(b"k", b"old").unwrap();
        let fs = engine.into_io();
        fs.left.set(1 + budget);
        let mut engine = Engine::open(fs, math(), Options::new("db".to_string())).unwrap();
        assert!(matches!(engine.put(b"k", b"new"), Err(Error::Io(_))), "{budget}");
        assert_eq!(engine.get(b"k").unwrap(), Some(b"old".to_vec()));
    }
}

/// A compaction that leaves nothing, and cannot remove its inputs, does not
/// bring back what was deleted.
#[test]
fn deleted_keys_stay_deleted_if_tables_cannot_be_removed() {
    let mut lost = 0;
    for budget in 1..60 {
        for outage in [1, 2, 3, usize::MAX] {
            let fs = FailingFs {
                fs: MemFs::new(),
                left: Cell::new(1000),
                outage: Cell::new(outage),
            };
            let mut options = Options::new("db".to_string());
            options.memtable_max_size_bytes = 1;
            options.l0_compaction_trigger = 2;
            let mut engine = Engine::open(fs, math(), options.clone()).unwrap();
            engine.put(b"a", b"1").unwrap();
            let fs = engine.into_io();
            fs.left.set(budget);
            let mut engine = match Engine::open(fs, math(), options.clone()) {
                Ok(engine) => engine,
                Err(_) => continue,
            };
            if engine.delete(b"a").is_err() {
                continue;
            }
            lost += (engine.level_counts() != (0, 0)) as u32;
            assert_eq!(engine.get(b"a").unwrap(), None);
            let reopened = Engine::open(engine.into_io().fs, math(), options).unwrap();
            assert_eq!(reopened.get(b"a").unwrap(), None, "{outage} after {budget}");
        }
    }
    assert!(lost > 0);
}
