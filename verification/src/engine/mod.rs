//! The storage engine: a crash-safe key-value store with a vector index.
//!
//! Every write goes to the log, is synced, and only then shows in the
//! memtable: readers see nothing that is not durable. Opening an engine finds
//! its tables, replays its log and recovers its vector index, and so resumes
//! the state that its files stand for.
//!
//! - [`options`]: configuration.
//! - [`names`]: file names.
//! - [`state`]: the state of an engine as mathematics.
//! - [`levels`] and [`discover`]: the tables, and how they are found on disk.
//! - [`lsm`]: log, memtable and tables; flushes, compactions and recovery.
//! - [`vector`]: the vector index with the keys of its nodes.
//! - [`query`] and [`scan`]: queries by similarity.
//! - [`snapshot_file`]: snapshots of the vector index.
//! - [`guarantees`]: what the operations promise together.
//! - [`promises`]: what they promise of keys, values and embeddings as they are
//!   handed in and come back.
//! - [`history`]: what holds after any number of operations.

use crate::assoc;
use crate::codec;
use crate::codec::copy_bytes;
use crate::engine::lsm::index_laws;
use crate::engine::lsm::laws;
use crate::engine::lsm::mend;
use crate::engine::lsm::recover;
use crate::engine::lsm::snapshots;
use crate::engine::lsm::EngineInner;
use crate::engine::snapshot_file::write_snapshot;
use crate::engine::vector::{encode_vector, VectorIndex};
use crate::error::{invalid_argument, Error, Result};
use crate::hnsw::float;
use crate::hnsw::float::check_finite;
use crate::hnsw::graph;
use crate::hnsw::insert;
use crate::hnsw::math::VectorMath;
use crate::hnsw::snapshot;
use crate::hnsw::{DistanceMetric, HnswParams};
use crate::io;
use crate::io::Io;
use crate::memtable;
use crate::memtable::EntryView;
use crate::sstable::layout::Scan;
use crate::wal::record::{RecordKind, RecordView};
use vstd::prelude::*;

pub mod discover;
pub mod guarantees;
pub mod history;
pub mod levels;
pub mod lsm;
pub mod names;
pub mod options;
pub mod promises;
pub mod query;
pub mod scan;
pub mod snapshot_file;
pub mod state;
pub mod vector;

pub use options::Options;
pub use query::NearestResult;

verus! {

/// The storage engine.
pub struct Engine<I: Io, M: VectorMath> {
    io: I,
    math: M,
    inner: EngineInner,
    vector_index: VectorIndex,
    options: Options,
}

/// What is not finite has a component that is infinite or not a number.
proof fn lemma_has_infinite(v: Seq<u32>)
    requires
        !float::all_finite(v),
    ensures
        exists|i: int| 0 <= i < v.len() && (#[trigger] v[i]) % 0x8000_0000 >= 0x7f80_0000,
{
    let i = choose|i: int| 0 <= i < v.len() && !float::is_finite(#[trigger] v[i]);
    float::lemma_order(v[i], v[i]);
    assert(v[i] % 0x8000_0000 >= 0x7f80_0000);
}

impl<I: Io, M: VectorMath> Engine<I, M> {
    /// The storage backend.
    pub closed spec fn backend(&self) -> I {
        self.io
    }

    /// The arithmetic on embeddings.
    pub closed spec fn arithmetic(&self) -> M {
        self.math
    }

    /// Log, memtable and tables.
    pub closed spec fn lsm(&self) -> EngineInner {
        self.inner
    }

    /// The vector index.
    pub closed spec fn index(&self) -> VectorIndex {
        self.vector_index
    }

    /// The configuration.
    pub closed spec fn config(&self) -> Options {
        self.options
    }

    /// The files.
    pub open spec fn files(&self) -> io::Files {
        self.backend().files()
    }

    /// Tables and graph are well-formed, and the arithmetic can be used.
    pub open spec fn wf(&self) -> bool {
        &&& self.lsm().wf(self.files())
        &&& self.index().wf()
        &&& self.arithmetic().ready()
    }

    /// The value or embedding that `k` holds.
    #[verifier::inline]
    pub open spec fn value(&self, k: Seq<u8>) -> Option<EntryView> {
        self.lsm().value(self.files(), k)
    }

    /// The files hold what the engine holds.
    pub open spec fn in_step(&self) -> bool {
        self.lsm().in_step(self.files())
    }

    /// The files hold what the engine holds, once what a failed operation left
    /// was mended.
    pub open spec fn is_ready(&self) -> bool {
        self.lsm().is_ready(self.files())
    }

    /// The files stand for what the engine shows, or for that with one record
    /// more, which was not acknowledged.
    pub open spec fn is_kept(&self) -> bool {
        self.lsm().is_kept(self.files())
    }

    /// Log and tables are on stable storage, and so are their names.
    pub open spec fn durable(&self) -> bool {
        &&& self.lsm().durable(&self.backend())
        &&& self.backend().is_synced(names::wal_name())
        &&& self.backend().is_linked(names::wal_name())
    }

    /// The storage does not fail, the log is there, and no table has damage.
    pub open spec fn is_healthy(&self) -> bool {
        &&& self.backend().is_reliable()
        &&& self.files().contains_key(names::wal_name())
        &&& self.lsm().is_sound(self.files())
    }

    /// Every file of a table is one of the tables of the engine.
    pub open spec fn is_clean(&self) -> bool {
        self.lsm().is_clean(self.files())
    }

    /// The index holds for `k` what it should: the embedding that `k` holds,
    /// and nothing if `k` holds a plain value or nothing.
    pub open spec fn index_fits(&self, k: Seq<u8>) -> bool {
        index_laws::fits(
            &self.arithmetic(),
            self.index().graph().spec_params().metric,
            self.index().indexed(k),
            self.value(k),
        )
    }

    /// The index holds for each key what it should, can be written to a
    /// snapshot, and the latest snapshot on disk is right.
    pub open spec fn index_in_step(&self) -> bool {
        &&& forall|k: Seq<u8>| #[trigger] self.index_fits(k)
        &&& self.index().is_storable()
        &&& self.lsm().snapshots_in_step(self.files(), &self.arithmetic())
    }

    /// Nothing changed.
    pub open spec fn unchanged(&self, after: &Self) -> bool {
        &&& after.lsm().same(&self.lsm())
        &&& after.files() == self.files()
        &&& after.index() == self.index()
    }

    /// What does not depend on the data is the same.
    pub open spec fn same_setup(&self, after: &Self) -> bool {
        &&& after.arithmetic() == self.arithmetic()
        &&& after.config() == self.config()
        &&& after.lsm().is_closed() == self.lsm().is_closed()
        &&& after.backend().is_reliable() == self.backend().is_reliable()
    }

    /// A write of `rec` flushes the memtable.
    pub open spec fn flush_is_due(&self, rec: RecordView) -> bool {
        memtable::size_after(
            self.lsm().mem_size(),
            assoc::find(self.lsm().mem(), rec.key),
            rec.key,
            state::record_entry(rec),
        ) >= self.config().memtable_max_size_bytes
    }

    /// A write of `rec` cannot be done, though the engine is healthy.
    pub open spec fn write_is_blocked(&self, rec: RecordView) -> bool {
        self.lsm().write_is_blocked(
            self.files(),
            rec,
            self.flush_is_due(rec),
            self.config().l0_compaction_trigger,
            self.config().bloom_bits_per_key,
        )
    }

    /// A write of `rec` sets off a compaction.
    pub open spec fn compaction_is_due(&self, rec: RecordView) -> bool {
        self.lsm().compaction_is_due(self.flush_is_due(rec), self.config().l0_compaction_trigger)
    }

    /// If there is a new table, a snapshot of the index of `after` was written
    /// and is durable. A reliable backend keeps no older one.
    pub open spec fn snapshot_follows(&self, after: &Self) -> bool {
        let next = after.lsm().next_id();
        let n = names::snapshot_name(next);
        next != self.lsm().next_id() ==> {
            &&& after.files().contains_key(n)
            &&& !self.files().contains_key(names::tmp_name(n)) ==> after.files()[n]
                == snapshot::snapshot_bytes(
                after.index().graph().snapshot(next, after.index().keys()),
            )
            &&& after.backend().is_synced(n)
            &&& after.backend().is_linked(n)
            &&& self.backend().is_reliable() ==> snapshots::none_stale(
                after.files(),
                n,
                Some(next),
            )
        }
    }

    /// Files that are neither log nor tables nor snapshots stay as they are.
    pub open spec fn others_stay(&self, after: &Self) -> bool {
        forall|n: Seq<u8>|
            !lsm::write::is_lsm_name(n) && !snapshot_file::is_snapshot_name(n)
                ==> #[trigger] lsm::agree(self.files(), after.files(), n)
    }

    /// `key` was taken out of the index.
    pub open spec fn drops_key(&self, key: Seq<u8>, after: &Self) -> bool {
        &&& after.index().indexed(key) is None
        &&& self.index().drops(&self.arithmetic(), key, after.index().graph())
        &&& self.index().rekeys(key, None, &after.index())
        &&& graph::live_count(self.index().graph().nodes()) == graph::live_count(
            after.index().graph().nodes(),
        ) + (if self.index().indexed(key) is Some {
            1int
        } else {
            0int
        })
    }

    /// A write of `rec` to log, memtable and tables gives `after`, and returns
    /// `r`. If it is acknowledged, `rec` shows and is on stable storage, and the
    /// files are in step. If not, it does not show, or it does and is on stable
    /// storage, the files stand for the state before or after it, and the next
    /// write brings files and engine in step again. An engine that was healthy
    /// stays so.
    pub open spec fn writes(&self, rec: RecordView, after: &Self, r: Result<()>) -> bool {
        let before = self.lsm();
        let lsm = after.lsm();
        if before.is_closed() {
            r matches Err(Error::Closed) && self.unchanged(after)
        } else if !rec.valid() {
            r matches Err(Error::InvalidArgument(_)) && self.unchanged(after)
        } else {
            &&& lsm.new_tables_filtered(
                after.files(),
                before.next_id(),
                self.config().bloom_bits_per_key,
            )
            &&& match r {
                Ok(_) => {
                    &&& before.is_ordered() || !self.compaction_is_due(rec) ==> before.shows_update(
                        self.files(),
                        rec,
                        &lsm,
                        after.files(),
                    )
                    &&& before.levels_follow(
                        self.flush_is_due(rec),
                        self.config().l0_compaction_trigger,
                        &lsm,
                    )
                    &&& before.mem_follows(self.flush_is_due(rec), rec, &lsm)
                    &&& before.stays_in_step(
                        self.files(),
                        self.flush_is_due(rec),
                        &lsm,
                        after.files(),
                    )
                    &&& lsm.is_recorded(&after.backend(), rec)
                    &&& self.durable() ==> after.durable()
                    &&& self.is_healthy() ==> after.is_healthy()
                    &&& self.backend().is_reliable() && self.is_clean() ==> after.is_clean()
                    &&& self.backend().is_reliable() && self.is_clean() && self.compaction_is_due(
                        rec,
                    ) ==> lsm.has_no_empty_table(after.files())
                },
                Err(e) => {
                    &&& !(e is Closed)
                    &&& before.is_ordered() || !self.compaction_is_due(rec) ==> before.shows_same(
                        self.files(),
                        &lsm,
                        after.files(),
                    ) || before.shows_update(self.files(), rec, &lsm, after.files())
                        && lsm.is_recorded(&after.backend(), rec)
                    &&& self.in_step() ==> before.leaves(self.files(), Some(rec), after.files())
                    &&& self.is_ready() ==> after.is_ready()
                    &&& self.is_ready() && self.is_kept() ==> after.is_kept()
                },
            }
        }
    }

    /// A write of `rec` was acknowledged, and gave `after`: log and tables, and
    /// the index with its snapshots, follow. An embedding goes with the others.
    pub open spec fn acknowledges(&self, rec: RecordView, after: &Self) -> bool {
        let d = after.index().graph().spec_dim();
        &&& !self.lsm().is_closed()
        &&& rec.valid()
        &&& self.writes(rec, after, Ok(()))
        &&& self.goes_on(after)
        &&& self.lsm().is_ordered() && self.index_in_step() ==> after.index_in_step()
        &&& rec.kind is Vector ==> d != 0 && rec.value.len() == 4 * d && insert::prepared(
            &self.arithmetic(),
            self.index().graph().spec_params().metric,
            vector::components(rec.value),
        ) is Some
    }

    /// A flush was done, and gave `after`.
    pub open spec fn flushes(&self, after: &Self) -> bool {
        &&& !self.lsm().is_closed()
        &&& self.lsm().stays_in_step(
            self.files(),
            self.lsm().mem().len() > 0,
            &after.lsm(),
            after.files(),
        )
        &&& self.lsm().is_ordered() ==> forall|k: Seq<u8>| #[trigger] after.value(k) == self.value(k)
        &&& self.goes_on(after)
        &&& self.lsm().is_ordered() && self.index_in_step() ==> after.index_in_step()
    }

    /// What every operation keeps in `after`.
    pub open spec fn goes_on(&self, after: &Self) -> bool {
        &&& after.wf()
        &&& self.same_setup(after)
        &&& self.lsm().is_ordered() ==> after.lsm().is_ordered()
        &&& self.lsm().is_sound(self.files()) ==> after.lsm().is_sound(after.files())
        &&& after.index().graph().spec_params() == self.index().graph().spec_params()
        &&& self.index().graph().spec_dim() != 0 ==> after.index().graph().spec_dim()
            == self.index().graph().spec_dim()
    }

    /// Writes one record to log, memtable and tables.
    fn write_lsm(&mut self, kind: RecordKind, key: &[u8], value: &[u8]) -> (r: Result<bool>)
        requires
            old(self).wf(),
        ensures
            final(self).wf(),
            old(self).same_setup(final(self)),
            final(self).index() == old(self).index(),
            old(self).lsm().is_ordered() ==> final(self).lsm().is_ordered(),
            old(self).lsm().is_sound(old(self).files()) ==> final(self).lsm().is_sound(
                final(self).files(),
            ),
            ({
                let rec = (RecordView { kind, key: key@, value: value@ });
                let done: Result<()> = match r {
                    Ok(_) => Ok(()),
                    Err(e) => Err(e),
                };
                old(self).writes(rec, final(self), done)
            }),
            r matches Ok(changed) ==> changed == (final(self).lsm().next_id() != old(
                self,
            ).lsm().next_id()),
            ({
                let rec = (RecordView { kind, key: key@, value: value@ });
                r is Err && old(self).is_healthy() && !old(self).lsm().is_closed() && rec.valid()
                    ==> old(self).write_is_blocked(rec)
            }),
            r matches Ok(false) ==> old(self).lsm().only_logs(
                old(self).files(),
                (RecordView { kind, key: key@, value: value@ }),
                &final(self).lsm(),
                final(self).files(),
            ),
            forall|n: Seq<u8>|
                !lsm::write::is_lsm_name(n) ==> #[trigger] lsm::agree(
                    old(self).files(),
                    final(self).files(),
                    n,
                ),
    {
        self.inner.write(&mut self.io, &self.options, kind, key, value)
    }

    /// `after` differs in the snapshots at most.
    pub open spec fn same_but_snapshots(&self, after: &Self) -> bool {
        &&& self.same_setup(after)
        &&& after.lsm() == self.lsm()
        &&& after.index() == self.index()
        &&& forall|n: Seq<u8>|
            !snapshot_file::is_snapshot_name(n) ==> #[trigger] lsm::agree(
                self.files(),
                after.files(),
                n,
            )
    }

    /// What is on stable storage, and is no snapshot, stays there.
    pub open spec fn keeps_durable(&self, after: &Self) -> bool {
        &&& forall|o: Seq<u8>|
            !snapshot_file::is_snapshot_name(o) && self.backend().is_synced(o)
                ==> #[trigger] after.backend().is_synced(o)
        &&& forall|o: Seq<u8>|
            !snapshot_file::is_snapshot_name(o) && self.backend().is_linked(o)
                ==> #[trigger] after.backend().is_linked(o)
    }

    /// Writes a snapshot of the vector index if there is a new table.
    fn refresh_snapshot(&mut self, changed: bool) -> (r: Result<()>)
        requires
            old(self).wf(),
        ensures
            final(self).wf(),
            old(self).same_but_snapshots(final(self)),
            forall|k: Seq<u8>| #[trigger] final(self).value(k) == old(self).value(k),
            old(self).in_step() ==> final(self).in_step(),
            old(self).durable() ==> final(self).durable(),
            old(self).keeps_durable(final(self)),
            old(self).lsm().is_sound(old(self).files()) ==> final(self).lsm().is_sound(
                final(self).files(),
            ),
            r matches Err(e) ==> e is Io && changed && !old(self).backend().is_reliable(),
            !changed ==> final(self).files() == old(self).files(),
            changed && r is Ok ==> {
                let n = names::snapshot_name(old(self).lsm().next_id());
                let tmp = names::tmp_name(n);
                &&& final(self).files().contains_key(n)
                &&& final(self).backend().is_synced(n)
                &&& final(self).backend().is_linked(n)
                &&& old(self).backend().is_reliable() ==> snapshots::none_stale(
                    final(self).files(),
                    n,
                    Some(old(self).lsm().next_id()),
                )
                &&& !old(self).files().contains_key(tmp) ==> final(self).files()[n]
                    == snapshot::snapshot_bytes(
                    old(self).index().graph().snapshot(
                        old(self).lsm().next_id(),
                        old(self).index().keys(),
                    ),
                )
            },
            changed && r is Ok && old(self).index().is_storable() && (forall|k: Seq<u8>| #[trigger]
                old(self).index_fits(k)) && index_laws::snapshots_settled(
                old(self).files(),
                old(self).lsm().next_id(),
            ) ==> final(self).index_in_step(),
    {
        if !changed {
            return Ok(());
        }
        let ghost before = *self;
        let next = self.inner.next_table_id();
        let r = write_snapshot(&mut self.io, self.options.path.as_str(), &self.vector_index, next);
        proof {
            before.lemma_snapshots_apart(self);
            if r is Ok {
                let n = names::snapshot_name(next);
                if !before.files().contains_key(names::tmp_name(n)) {
                    let b = snapshot::snapshot_bytes(
                        before.index().graph().snapshot(next, before.index().keys()),
                    );
                    assert(Seq::<u8>::empty() + b =~= b);
                }
                if before.index().is_storable() && (forall|k: Seq<u8>| #[trigger]
                    before.index_fits(k)) && index_laws::snapshots_settled(before.files(), next) {
                    assert forall|k: Seq<u8>| #[trigger] self.index_fits(k) by {
                        assert(before.index_fits(k));
                        assert(self.value(k) == before.value(k));
                    }
                    assert forall|k: Seq<u8>| #[trigger]
                        index_laws::fits(
                            &self.arithmetic(),
                            self.index().graph().spec_params().metric,
                            self.index().indexed(k),
                            self.lsm().value(self.files(), k),
                        ) by {
                        assert(self.index_fits(k));
                    }
                    index_laws::lemma_fresh_snapshot(
                        self.lsm(),
                        before.files(),
                        self.files(),
                        &self.arithmetic(),
                        self.index(),
                    );
                }
            }
        }
        r
    }

    /// After a write to log, memtable and tables, and a snapshot if there is a
    /// new table, the index is in step again if it holds what it should.
    proof fn lemma_index_in_step(&self, mid: &Self, after: &Self, changed: bool)
        requires
            self.index_in_step(),
            after.arithmetic() == self.arithmetic(),
            mid.arithmetic() == self.arithmetic(),
            mid.wf(),
            after.lsm() == mid.lsm(),
            after.index() == mid.index(),
            forall|k: Seq<u8>| #[trigger] mid.index_fits(k),
            forall|k: Seq<u8>| #[trigger] after.value(k) == mid.value(k),
            mid.index().is_storable(),
            changed == (mid.lsm().next_id() != self.lsm().next_id()),
            mid.lsm().next_id() >= self.lsm().next_id(),
            !changed ==> {
                &&& after.files() == mid.files()
                &&& mid.lsm().levels() == self.lsm().levels()
                &&& self.lsm().tables_kept(self.files(), mid.files())
                &&& forall|k: Seq<u8>| #[trigger]
                    assoc::find(mid.lsm().mem(), k) is None ==> assoc::find(
                        self.lsm().mem(),
                        k,
                    ) is None
            },
            forall|n: Seq<u8>|
                !lsm::write::is_lsm_name(n) ==> #[trigger] lsm::agree(self.files(), mid.files(), n),
            changed && index_laws::snapshots_settled(mid.files(), mid.lsm().next_id())
                ==> after.index_in_step(),
        ensures
            after.index_in_step(),
    {
        if changed {
            index_laws::lemma_settled_stays(
                self.files(),
                self.lsm().next_id(),
                mid.files(),
                mid.lsm().next_id(),
            );
        } else {
            assert forall|k: Seq<u8>| #[trigger] after.index_fits(k) by {
                assert(mid.index_fits(k));
                assert(after.value(k) == mid.value(k));
            }
            index_laws::lemma_snapshots_stay(
                self.lsm(),
                self.files(),
                mid.lsm(),
                mid.files(),
                &self.arithmetic(),
            );
        }
    }

    /// Snapshots do not matter to log and tables.
    proof fn lemma_snapshots_apart(&self, after: &Self)
        requires
            self.wf(),
            self.same_but_snapshots(after),
        ensures
            after.wf(),
            forall|k: Seq<u8>| #[trigger] after.value(k) == self.value(k),
            self.in_step() ==> after.in_step() && after.is_ready() && after.is_kept(),
            self.is_ready() ==> after.is_ready(),
            self.lsm().tables_in_step(self.files()) ==> after.lsm().tables_in_step(after.files()),
            self.is_clean() ==> after.is_clean(),
            self.lsm().has_no_empty_table(self.files()) ==> after.lsm().has_no_empty_table(
                after.files(),
            ),
            forall|from: u64, bits: u32| #[trigger]
                self.lsm().new_tables_filtered(self.files(), from, bits)
                    ==> after.lsm().new_tables_filtered(after.files(), from, bits),
            self.lsm().is_sound(self.files()) ==> after.lsm().is_sound(after.files()),
            self.is_healthy() ==> after.is_healthy(),
            forall|view: spec_fn(Seq<u8>) -> Option<EntryView>| #[trigger]
                state::stands_for(self.files(), view) ==> state::stands_for(after.files(), view),
            forall|i: int|
                0 <= i < self.lsm().levels().refs().len() ==> !snapshot_file::is_snapshot_name(
                    (#[trigger] self.lsm().levels().refs()[i]).1,
                ),
    {
        let e = self.lsm();
        let f = self.files();
        let g = after.files();
        assert(names::wal_name()[0] == 119u8);
        assert forall|n: Seq<u8>|
            n == names::wal_name() || names::parse_sst(n) is Some implies #[trigger] lsm::agree(
            f,
            g,
            n,
        ) by {
            if n != names::wal_name() {
                snapshots::lemma_table_letter(n);
            }
            assert(!snapshot_file::is_snapshot_name(n));
        }
        assert(lsm::agree(f, g, names::wal_name()));
        e.levels().lemma_files(f);
        assert forall|i: int|
            0 <= i < e.levels().refs().len() implies !snapshot_file::is_snapshot_name(
            (#[trigger] e.levels().refs()[i]).1,
        ) by {
            assert(e.table_named(i));
            snapshots::lemma_table_letter(e.refs()[i].1);
        }
        assert(e.tables_kept(f, g)) by {
            assert forall|i: int| 0 <= i < e.refs().len() implies g.contains_key(
                (#[trigger] e.refs()[i]).1,
            ) && g[e.refs()[i].1] == f[e.refs()[i].1] by {
                assert(e.table_named(i));
                assert(lsm::agree(f, g, e.refs()[i].1));
            }
        }
        e.lemma_kept(f, g);
        assert forall|k: Seq<u8>| #[trigger] after.value(k) == self.value(k) by {
            assert(e.entry(g, k) == e.entry(f, k));
        }
        if e.tables_in_step(f) {
            laws::lemma_others_in_step(e, f, g);
        }
        if e.in_step(f) {
            mend::lemma_is_ready(e, f);
        }
        if e.is_ready(f) {
            assert forall|n: Seq<u8>|
                names::extension(n) == Some(names::sst_ext()) && names::parse_sst(
                    n,
                ) is Some implies #[trigger] lsm::agree(e.cleaned(f), e.cleaned(g), n) by {
                assert(lsm::agree(f, g, n));
            }
            laws::lemma_tables_stay(e, e.cleaned(f), e, e.cleaned(g));
            if e.log_in_step(f) {
                laws::lemma_log_of(g, state::log_records(f));
            }
        }
        if e.is_clean(f) {
            laws::lemma_clean_stays(e, f, e, g);
        }
        lsm::write::lemma_filters_stay(e, f, g);
        assert forall|view: spec_fn(Seq<u8>) -> Option<EntryView>| #[trigger]
            state::stands_for(f, view) implies state::stands_for(g, view) by {
            laws::lemma_others_stand(f, g, view);
        }
        if e.in_step(f) {
            laws::lemma_files_stand_for_engine(e, g);
        }
    }

    /// After a write to log and tables, and a snapshot, other files are as they
    /// were, and so is what is left of an earlier attempt to write a snapshot.
    proof fn lemma_files_around(&self, mid: &Self, after: &Self)
        requires
            forall|n: Seq<u8>|
                !lsm::write::is_lsm_name(n) ==> #[trigger] lsm::agree(self.files(), mid.files(), n),
            mid.same_but_snapshots(after),
        ensures
            self.others_stay(after),
            forall|id: u64|
                self.files().contains_key(
                    #[trigger] names::tmp_name(names::snapshot_name(id)),
                ) == mid.files().contains_key(names::tmp_name(names::snapshot_name(id))),
    {
        assert forall|n: Seq<u8>|
            !lsm::write::is_lsm_name(n) && !snapshot_file::is_snapshot_name(
                n,
            ) implies #[trigger] lsm::agree(self.files(), after.files(), n) by {
            assert(lsm::agree(self.files(), mid.files(), n));
            assert(lsm::agree(mid.files(), after.files(), n));
        }
        assert forall|id: u64|
            self.files().contains_key(
                #[trigger] names::tmp_name(names::snapshot_name(id)),
            ) == mid.files().contains_key(names::tmp_name(names::snapshot_name(id))) by {
            let t = names::tmp_name(names::snapshot_name(id));
            assert(t[0] == names::snapshot_prefix()[0]);
            assert(lsm::agree(self.files(), mid.files(), t));
        }
    }

    /// Snapshots leave a record where it is.
    proof fn lemma_stays_recorded(&self, after: &Self, rec: RecordView)
        requires
            self.wf(),
            self.same_but_snapshots(after),
            self.keeps_durable(after),
            self.lsm().is_recorded(&self.backend(), rec),
        ensures
            after.lsm().is_recorded(&after.backend(), rec),
    {
        let e = self.lsm();
        let wal = names::wal_name();
        self.lemma_snapshots_apart(after);
        assert(wal[0] == 119u8);
        assert(lsm::agree(self.files(), after.files(), wal));
        assert forall|i: int| 0 <= i < e.refs().len() implies #[trigger] lsm::agree(
            self.files(),
            after.files(),
            e.refs()[i].1,
        ) by {
            assert(!snapshot_file::is_snapshot_name(e.levels().refs()[i].1));
        }
        e.levels().lemma_files(self.files());
        if exists|i: int|
            0 <= i < e.refs().len() && self.backend().is_synced((#[trigger] e.refs()[i]).1)
                && assoc::find(state::pairs_in(self.files()[e.refs()[i].1]), rec.key) == Some(
                state::record_entry(rec),
            ) {
            let i = choose|i: int|
                0 <= i < e.refs().len() && self.backend().is_synced((#[trigger] e.refs()[i]).1)
                    && assoc::find(state::pairs_in(self.files()[e.refs()[i].1]), rec.key) == Some(
                    state::record_entry(rec),
                );
            assert(lsm::agree(self.files(), after.files(), e.refs()[i].1));
            assert(after.backend().is_synced(e.refs()[i].1));
        } else if e.mem().len() == 0 && e.durable(&self.backend()) {
            assert(e.durable(&after.backend())) by {
                assert forall|i: int| 0 <= i < e.refs().len() implies after.backend().is_synced(
                    (#[trigger] e.refs()[i]).1,
                ) && after.backend().is_linked(e.refs()[i].1) by {
                    assert(!snapshot_file::is_snapshot_name(e.levels().refs()[i].1));
                    assert(self.backend().is_synced(e.refs()[i].1));
                }
            }
        }
    }

    /// An acknowledged write, followed by an attempt to write a snapshot.
    proof fn lemma_then_snapshot(
        &self,
        rec: RecordView,
        mid: &Self,
        after: &Self,
        r: Result<()>,
    )
        requires
            self.writes(rec, mid, Ok(())),
            mid.wf(),
            mid.same_but_snapshots(after),
            mid.durable() ==> after.durable(),
            mid.keeps_durable(after),
            r matches Err(e) ==> !(e is Closed),
        ensures
            self.writes(rec, after, r),
    {
        let before = self.lsm();
        mid.lemma_snapshots_apart(after);
        if mid.lsm().is_recorded(&mid.backend(), rec) {
            mid.lemma_stays_recorded(after, rec);
        }
        if before.is_ordered() || !self.compaction_is_due(rec) {
            assert forall|k: Seq<u8>| #[trigger] after.lsm().value(after.files(), k)
                == laws::updated(before.view(self.files()), rec)(k) by {
                assert(after.value(k) == mid.value(k));
                assert(mid.lsm().value(mid.files(), k) == laws::updated(
                    before.view(self.files()),
                    rec,
                )(k));
            }
        }
        if self.in_step() {
            mend::lemma_is_ready(before, self.files());
        }
        if self.in_step() && mid.in_step() {
            laws::lemma_files_stand_for_engine(mid.lsm(), mid.files());
            assert(mid.lsm().view(mid.files()) =~= laws::updated(
                before.view(self.files()),
                rec,
            )) by {
                assert forall|k: Seq<u8>| #[trigger] mid.lsm().view(mid.files())(k)
                    == laws::updated(before.view(self.files()), rec)(k) by {
                    assert(mid.lsm().value(mid.files(), k) == laws::updated(
                        before.view(self.files()),
                        rec,
                    )(k));
                }
            }
        }
    }

    /// Why an engine cannot be opened on `files`, though the storage does not
    /// fail: a table or the log cannot be read, or no index can be built of
    /// the embeddings.
    pub open spec fn cannot_open(files: io::Files, math: &M, params: HnswParams) -> bool {
        ||| discover::is_unusable(files)
        ||| !state::log_readable(files)
        ||| exists|e: EngineInner, mid: io::Files| #[trigger]
            e.opened_from(files, mid) && (!e.is_sound(mid) || !e.embeddings_fit(mid, math, params))
    }

    /// Why an engine on `files` fails to open with `e`. Reading fails on storage
    /// that may fail, or where a table ends before one of its blocks. Damage is
    /// in the log or in a table; embeddings that do not go together count as
    /// damage too, or are refused.
    pub open spec fn open_fails(
        files: io::Files,
        math: &M,
        params: HnswParams,
        reliable: bool,
        e: Error,
    ) -> bool {
        &&& e is Io ==> !reliable || exists|e: EngineInner, mid: io::Files| #[trigger]
            e.opened_from(files, mid) && e.has_lost(mid)
        &&& e is Corruption ==> Self::cannot_open(files, math, params)
        &&& e is InvalidArgument ==> exists|e: EngineInner, mid: io::Files| #[trigger]
            e.opened_from(files, mid) && (!e.is_sound(mid) || !e.embeddings_fit(mid, math, params))
        &&& !(e is Closed)
        &&& reliable ==> Self::cannot_open(files, math, params)
    }

    /// An engine that was opened on files that were all on stable storage has
    /// log and tables there.
    proof fn lemma_opened_durable(&self, io0: &I, io1: &I)
        requires
            self.wf(),
            self.lsm().wf(io1.files()),
            recover::opens_to(io0.files(), io1.files(), self.lsm().refs()),
            io0.files().contains_key(names::wal_name()) || (io1.is_synced(names::wal_name())
                && io1.is_linked(names::wal_name())),
            forall|o: Seq<u8>|
                io0.files().contains_key(o) && !discover::expendable(
                    io0.files(),
                    o,
                    self.lsm().refs(),
                ) && io0.is_synced(o) ==> #[trigger] io1.is_synced(o),
            forall|o: Seq<u8>|
                io0.files().contains_key(o) && !discover::expendable(
                    io0.files(),
                    o,
                    self.lsm().refs(),
                ) && io0.is_linked(o) ==> #[trigger] io1.is_linked(o),
            forall|o: Seq<u8>|
                names::parse_snapshot(o) is None && io1.is_synced(o) ==>
                    #[trigger] self.backend().is_synced(o),
            forall|o: Seq<u8>|
                names::parse_snapshot(o) is None && io1.is_linked(o) ==>
                    #[trigger] self.backend().is_linked(o),
        ensures
            (forall|n: Seq<u8>| #[trigger]
                io0.files().contains_key(n) ==> io0.is_synced(n) && io0.is_linked(n))
                ==> self.durable(),
    {
        let f0 = io0.files();
        let mid = io1.files();
        if forall|n: Seq<u8>| #[trigger]
            f0.contains_key(n) ==> io0.is_synced(n) && io0.is_linked(n) {
            let lsm = self.lsm();
            lsm.levels().lemma_files(mid);
            names::lemma_names_differ(0, 0, names::wal_name());
            assert(names::tmp_ext()[0] != names::sst_ext()[0]);
            assert forall|i: int| 0 <= i < lsm.refs().len() implies self.backend().is_synced(
                (#[trigger] lsm.refs()[i]).1,
            ) && self.backend().is_linked(lsm.refs()[i].1) by {
                let n = lsm.refs()[i].1;
                assert(lsm.table_named(i));
                assert(mid.contains_key(n));
                if names::parse_snapshot(n) is Some {
                    snapshots::lemma_snapshot_is_other(n);
                }
                assert(lsm.refs().contains(lsm.refs()[i]));
                assert(!discover::expendable(f0, n, lsm.refs()));
                assert(io1.is_synced(n) && io1.is_linked(n));
            }
            if names::parse_snapshot(names::wal_name()) is Some {
                snapshots::lemma_snapshot_is_other(names::wal_name());
            }
            assert(!discover::expendable(f0, names::wal_name(), lsm.refs()));
            assert(io1.is_synced(names::wal_name()) && io1.is_linked(names::wal_name()));
        }
    }

    /// Opens the engine in the directory of `options`.
    pub fn open(io: I, math: M, options: Options) -> (r: Result<Self>)
        requires
            math.ready(),
        ensures
            match r {
                Ok(e) => {
                    &&& e.wf()
                    &&& e.arithmetic() == math
                    &&& e.config() == options
                    &&& !e.lsm().is_closed()
                    &&& e.backend().is_reliable() == io.is_reliable()
                    &&& e.files().contains_key(names::wal_name())
                    &&& (forall|n: Seq<u8>| #[trigger]
                        io.files().contains_key(n) ==> io.is_synced(n) && io.is_linked(n))
                        ==> e.durable()
                    &&& e.lsm().recovered_from(io.files())
                    &&& exists|mid: io::Files|
                        {
                            &&& #[trigger] recover::opens_to(io.files(), mid, e.lsm().refs())
                            &&& e.lsm().index_recovered(
                                mid,
                                &math,
                                options.hnsw_params,
                                e.index(),
                            )
                            &&& io.is_reliable() && e.lsm().is_sound(mid) && e.lsm().latest_loads(
                                mid,
                                &math,
                            ) ==> e.lsm().latest_is_loaded(mid, &math, e.index())
                            &&& io.is_reliable() ==> discover::swept(
                                io.files(),
                                mid,
                                e.lsm().refs(),
                            )
                            &&& exists|kept: Seq<u8>| #[trigger]
                                snapshots::drops_snapshots(mid, e.files(), kept)
                                    && snapshots::keeps_latest(mid, kept) && (io.is_reliable()
                                    ==> snapshots::none_stale(e.files(), kept, None))
                        }
                    &&& forall|k: Seq<u8>| #[trigger]
                        e.value(k) == state::recovered(
                            io.files(),
                            e.lsm().levels().refs0(),
                            e.lsm().levels().refs1(),
                            k,
                        )
                    &&& io.is_reliable() ==> e.is_clean()
                    &&& laws::is_tidy(io.files()) ==> e.in_step()
                    &&& forall|view: spec_fn(Seq<u8>) -> Option<EntryView>| #[trigger]
                        state::stands_for(io.files(), view) ==> forall|k: Seq<u8>| #[trigger]
                            e.value(k) == view(k)
                    &&& index_laws::index_stands(&math, io.files()) ==> {
                        &&& forall|k: Seq<u8>| #[trigger] e.index_fits(k)
                        &&& snapshots::params_fit(options.hnsw_params) && e.lsm().entry(
                            e.files(),
                            Seq::empty(),
                        ) is None && index_laws::snapshots_settled(
                            io.files(),
                            e.lsm().next_id(),
                        ) ==> e.index_in_step()
                    }
                },
                Err(e) => Self::open_fails(
                    io.files(),
                    &math,
                    options.hnsw_params,
                    io.is_reliable(),
                    e,
                ),
            },
            io.is_reliable() && (!state::log_readable(io.files()) || discover::is_hopeless(
                io.files(),
            )) ==> r matches Err(Error::Corruption(_)),
    {
        let ghost io0 = io;
        let mut io = io;
        let ghost f0 = io.files();
        match io.create_dir_all(options.path.as_str()) {
            Ok(_) => {},
            Err(e) => {
                return Err(e);
            },
        }
        let inner = match EngineInner::open(&mut io, options.path.as_str()) {
            Ok(i) => i,
            Err(e) => {
                return Err(e);
            },
        };
        let ghost mid = io.files();
        let ghost io1 = io;
        let vector_index = match inner.recover_vector_index(
            &mut io,
            options.path.as_str(),
            &math,
            options.hnsw_params,
        ) {
            Ok(v) => v,
            Err(e) => {
                assert(inner.opened_from(f0, mid));
                return Err(e);
            },
        };
        let e = Engine { io, math, inner, vector_index, options };
        proof {
            let kept = choose|kept: Seq<u8>| #[trigger]
                snapshots::drops_snapshots(mid, e.files(), kept) && snapshots::keeps_latest(
                    mid,
                    kept,
                ) && (io0.is_reliable() ==> snapshots::none_stale(e.files(), kept, None));
            assert forall|n: Seq<u8>| names::parse_sst(n) is Some implies #[trigger] lsm::agree(
                mid,
                e.files(),
                n,
            ) by {
                if names::parse_snapshot(n) is Some {
                    snapshots::lemma_snapshot_is_other(n);
                }
            }
            if io0.is_reliable() {
                laws::lemma_opened_clean(e.lsm(), f0, mid);
                laws::lemma_clean_stays(e.lsm(), mid, e.lsm(), e.files());
            }
            assert(recover::opens_to(f0, mid, e.lsm().refs()));
            assert(e.files().contains_key(names::wal_name())) by {
                if names::parse_snapshot(names::wal_name()) is Some {
                    snapshots::lemma_snapshot_is_other(names::wal_name());
                }
            }
            e.lsm().lemma_snapshots_dropped(mid, e.files(), kept);
            assert forall|k: Seq<u8>| #[trigger] e.value(k) == state::recovered(
                f0,
                e.lsm().levels().refs0(),
                e.lsm().levels().refs1(),
                k,
            ) by {
                assert(e.lsm().entry(e.files(), k) == e.lsm().entry(mid, k));
                assert(e.lsm().value(mid, k) == state::recovered(
                    f0,
                    e.lsm().levels().refs0(),
                    e.lsm().levels().refs1(),
                    k,
                ));
            }
            e.lemma_opened_durable(&io0, &io1);
            if laws::is_tidy(f0) {
                laws::lemma_opened_in_step(e.lsm(), f0, mid);
                assert forall|n: Seq<u8>|
                    n == names::wal_name() || names::parse_sst(
                        n,
                    ) is Some implies #[trigger] lsm::agree(mid, e.files(), n) by {
                    if names::parse_snapshot(n) is Some {
                        snapshots::lemma_snapshot_is_other(n);
                    }
                }
                laws::lemma_others_in_step(e.lsm(), mid, e.files());
            }
            assert forall|view: spec_fn(Seq<u8>) -> Option<EntryView>| #[trigger]
                state::stands_for(f0, view) implies forall|k: Seq<u8>| #[trigger]
                e.value(k) == view(k) by {
                laws::lemma_reopened(e.lsm(), f0, e.files(), view);
                assert forall|k: Seq<u8>| #[trigger] e.value(k) == view(k) by {
                    assert(e.lsm().value(e.files(), k) == view(k));
                }
            }
            if index_laws::index_stands(&math, f0) {
                index_laws::lemma_opened_index(
                    e.lsm(),
                    f0,
                    mid,
                    &math,
                    options.hnsw_params,
                    e.index(),
                );
                assert forall|k: Seq<u8>| #[trigger] e.index_fits(k) by {
                    assert(e.lsm().entry(e.files(), k) == e.lsm().entry(mid, k));
                    assert(index_laws::fits(
                        &math,
                        e.index().graph().spec_params().metric,
                        e.index().indexed(k),
                        e.lsm().value(mid, k),
                    ));
                }
                if index_laws::snapshots_settled(f0, e.lsm().next_id()) {
                    index_laws::lemma_snapshots_dropped(e.lsm(), mid, e.files(), kept, &math);
                }
            }
        }
        Ok(e)
    }

    /// Sets `key` to `value`, and takes it out of the index.
    pub fn put(&mut self, key: &[u8], value: &[u8]) -> (r: Result<()>)
        requires
            old(self).wf(),
        ensures
            final(self).wf(),
            old(self).same_setup(final(self)),
            r is Ok ==> old(self).drops_key(key@, final(self)),
            r is Err ==> final(self).index() == old(self).index() || old(self).drops_key(
                key@,
                final(self),
            ),
            forall|k: Seq<u8>|
                k != key@ ==> #[trigger] final(self).index().indexed(k) == old(
                    self,
                ).index().indexed(k),
            final(self).index().graph().spec_params() == old(self).index().graph().spec_params(),
            r is Ok ==> old(self).snapshot_follows(final(self)),
            r is Ok ==> old(self).acknowledges(
                (RecordView { kind: RecordKind::Put, key: key@, value: value@ }),
                final(self),
            ),
            old(self).others_stay(final(self)),
            r is Err && !old(self).lsm().is_closed() && 0 < key@.len() <= 65536 && value@.len() <= 67108864 && old(
                self,
            ).backend().is_reliable() && old(self).files().contains_key(names::wal_name()) && old(
                self,
            ).lsm().is_sound(old(self).files()) ==> old(self).write_is_blocked(
                (RecordView { kind: RecordKind::Put, key: key@, value: value@ }),
            ),
            r is Ok && old(self).lsm().is_ordered() ==> {
                &&& final(self).value(key@) == Some(EntryView::Put(value@))
                &&& forall|k: Seq<u8>|
                    k != key@ ==> #[trigger] final(self).value(k) == old(self).value(k)
                &&& final(self).index().indexed(key@) is None
            },
            old(self).lsm().is_ordered() ==> final(self).lsm().is_ordered(),
            old(self).lsm().is_sound(old(self).files()) ==> final(self).lsm().is_sound(
                final(self).files(),
            ),
            old(self).writes(
                (RecordView { kind: RecordKind::Put, key: key@, value: value@ }),
                final(self),
                r,
            ),
            ({
                let rec = (RecordView { kind: RecordKind::Put, key: key@, value: value@ });
                r is Err && old(self).is_healthy() && !old(self).lsm().is_closed() && rec.valid()
                    ==> old(self).write_is_blocked(rec)
            }),
            ({
                let rec = (RecordView { kind: RecordKind::Put, key: key@, value: value@ });
                r is Ok && (old(self).lsm().is_ordered() || !old(self).compaction_is_due(rec))
                    ==> {
                    &&& forall|k: Seq<u8>| #[trigger]
                        old(self).index_fits(k) || k == key@ ==> final(self).index_fits(k)
                    &&& old(self).index_in_step() ==> final(self).index_in_step()
                }
            }),
    {
        let ghost before = *self;
        let ghost rec = RecordView { kind: RecordKind::Put, key: key@, value: value@ };
        let changed = match self.write_lsm(RecordKind::Put, key, value) {
            Ok(c) => c,
            Err(e) => {
                return Err(e);
            },
        };
        self.vector_index.remove_key(&self.math, key);
        let ghost mid = *self;
        let r = self.refresh_snapshot(changed);
        proof {
            before.lemma_then_snapshot(rec, &mid, self, r);
            before.lemma_files_around(&mid, self);
            if r is Ok && (before.lsm().is_ordered() || !before.compaction_is_due(rec)) {
                assert forall|k: Seq<u8>| #[trigger]
                    before.index_fits(k) || k == key@ implies mid.index_fits(k) && self.index_fits(
                    k,
                ) by {
                    assert(mid.lsm().value(mid.files(), k) == laws::updated(
                        before.lsm().view(before.files()),
                        rec,
                    )(k));
                    assert(self.value(k) == mid.value(k));
                }
                if before.index_in_step() {
                    assert forall|k: Seq<u8>| #[trigger] mid.index_fits(k) by {
                        assert(before.index_fits(k));
                    }
                    before.lemma_index_in_step(&mid, self, changed);
                }
            }
        }
        r
    }

    /// Deletes `key`, which need not be there, from the tables and the index.
    pub fn delete(&mut self, key: &[u8]) -> (r: Result<()>)
        requires
            old(self).wf(),
        ensures
            final(self).wf(),
            old(self).same_setup(final(self)),
            old(self).lsm().is_ordered() ==> final(self).lsm().is_ordered(),
            old(self).lsm().is_sound(old(self).files()) ==> final(self).lsm().is_sound(
                final(self).files(),
            ),
            old(self).writes(
                (RecordView { kind: RecordKind::Delete, key: key@, value: Seq::empty() }),
                final(self),
                r,
            ),
            ({
                let rec = (RecordView {
                    kind: RecordKind::Delete,
                    key: key@,
                    value: Seq::empty(),
                });
                r is Err && old(self).is_healthy() && !old(self).lsm().is_closed() && rec.valid()
                    ==> old(self).write_is_blocked(rec)
            }),
            r is Ok ==> old(self).drops_key(key@, final(self)),
            r is Err ==> final(self).index() == old(self).index() || old(self).drops_key(
                key@,
                final(self),
            ),
            r is Ok ==> old(self).snapshot_follows(final(self)),
            r is Ok ==> old(self).acknowledges(
                (RecordView { kind: RecordKind::Delete, key: key@, value: Seq::empty() }),
                final(self),
            ),
            old(self).others_stay(final(self)),
            r is Err && !old(self).lsm().is_closed() && 0 < key@.len() <= 65536 && old(
                self,
            ).backend().is_reliable() && old(self).files().contains_key(names::wal_name()) && old(
                self,
            ).lsm().is_sound(old(self).files()) ==> old(self).write_is_blocked(
                (RecordView { kind: RecordKind::Delete, key: key@, value: Seq::empty() }),
            ),
            r is Ok && old(self).lsm().is_ordered() ==> {
                &&& final(self).value(key@) is None
                &&& forall|k: Seq<u8>|
                    k != key@ ==> #[trigger] final(self).value(k) == old(self).value(k)
                &&& final(self).index().indexed(key@) is None
            },
            forall|k: Seq<u8>|
                k != key@ ==> #[trigger] final(self).index().indexed(k) == old(
                    self,
                ).index().indexed(k),
            final(self).index().graph().spec_params() == old(self).index().graph().spec_params(),
            ({
                let rec = (RecordView {
                    kind: RecordKind::Delete,
                    key: key@,
                    value: Seq::empty(),
                });
                r is Ok && (old(self).lsm().is_ordered() || !old(self).compaction_is_due(rec))
                    ==> {
                    &&& forall|k: Seq<u8>| #[trigger]
                        old(self).index_fits(k) || k == key@ ==> final(self).index_fits(k)
                    &&& old(self).index_in_step() ==> final(self).index_in_step()
                }
            }),
    {
        let ghost before = *self;
        let ghost rec = RecordView { kind: RecordKind::Delete, key: key@, value: Seq::empty() };
        let none: Vec<u8> = Vec::new();
        assert(none@ =~= Seq::<u8>::empty());
        let changed = match self.write_lsm(RecordKind::Delete, key, none.as_slice()) {
            Ok(c) => c,
            Err(e) => {
                return Err(e);
            },
        };
        self.vector_index.remove_key(&self.math, key);
        let ghost mid = *self;
        let r = self.refresh_snapshot(changed);
        proof {
            before.lemma_then_snapshot(rec, &mid, self, r);
            before.lemma_files_around(&mid, self);
            if r is Ok && (before.lsm().is_ordered() || !before.compaction_is_due(rec)) {
                assert forall|k: Seq<u8>| #[trigger]
                    before.index_fits(k) || k == key@ implies mid.index_fits(k) && self.index_fits(
                    k,
                ) by {
                    assert(mid.lsm().value(mid.files(), k) == laws::updated(
                        before.lsm().view(before.files()),
                        rec,
                    )(k));
                    assert(self.value(k) == mid.value(k));
                }
                if before.index_in_step() {
                    assert forall|k: Seq<u8>| #[trigger] mid.index_fits(k) by {
                        assert(before.index_fits(k));
                    }
                    before.lemma_index_in_step(&mid, self, changed);
                }
            }
        }
        r
    }

    /// The embedding `v` is refused before anything is written: it has no
    /// components, one that is not finite, or another dimension, or, unless the
    /// engine is closed, the graph cannot take it.
    pub open spec fn refuses_embedding(&self, v: Seq<u32>) -> bool {
        ||| v.len() == 0
        ||| !float::all_finite(v)
        ||| self.index().dim() matches Some(d) && d != v.len()
        ||| !self.lsm().is_closed() && self.index().graph().refuses_vector(&self.arithmetic(), v)
    }

    /// Sets `key` to the embedding `embedding` and puts it into the index. One
    /// that is refused changes nothing.
    pub fn put_indexed(&mut self, key: &[u8], embedding: &[u32]) -> (r: Result<()>)
        requires
            old(self).wf(),
        ensures
            final(self).wf(),
            old(self).same_setup(final(self)),
            old(self).lsm().is_ordered() ==> final(self).lsm().is_ordered(),
            old(self).lsm().is_sound(old(self).files()) ==> final(self).lsm().is_sound(
                final(self).files(),
            ),
            final(self).index().graph().spec_params() == old(self).index().graph().spec_params(),
            forall|k: Seq<u8>|
                k != key@ ==> #[trigger] final(self).index().indexed(k) == old(
                    self,
                ).index().indexed(k),
            r is Ok ==> old(self).snapshot_follows(final(self)),
            old(self).others_stay(final(self)),
            r is Ok ==> graph::live_count(final(self).index().graph().nodes()) == graph::live_count(
                old(self).index().graph().nodes(),
            ) + (if old(self).index().indexed(key@) is None {
                1int
            } else {
                0int
            }),
            r is Ok && old(self).lsm().is_ordered() ==> {
                &&& final(self).value(key@) matches Some(EntryView::Vector(b)) && b.len() == 4
                    * embedding@.len() && forall|i: int|
                    0 <= i < embedding@.len() ==> b.subrange(4 * i, 4 * i + 4)
                        == vstd::bytes::spec_u32_to_le_bytes(#[trigger] embedding@[i])
                &&& forall|k: Seq<u8>|
                    k != key@ ==> #[trigger] final(self).value(k) == old(self).value(k)
                &&& match old(self).index().graph().spec_params().metric {
                    DistanceMetric::Cosine => old(self).arithmetic().normalized(embedding@) is Some
                        && final(self).index().indexed(key@) == old(self).arithmetic().normalized(
                        embedding@,
                    ),
                    _ => final(self).index().indexed(key@) == Some(embedding@),
                }
            },
            r is Err && !old(self).lsm().is_closed() && 0 < key@.len() <= 65536 && 0
                < embedding@.len() <= 16777216 && (forall|i: int|
                0 <= i < embedding@.len() ==> (#[trigger] embedding@[i]) % 0x8000_0000
                    < 0x7f80_0000) && (old(self).index().dim() matches Some(d) ==> d
                == embedding@.len()) && (old(self).index().graph().spec_dim() == 0 || old(
                self,
            ).index().graph().spec_dim() == embedding@.len()) && (old(
                self,
            ).index().graph().spec_params().metric is Cosine ==> old(self).arithmetic().normalized(
                embedding@,
            ) is Some) && old(self).index().graph().nodes().len() < u32::MAX && old(
                self,
            ).backend().is_reliable() && old(self).files().contains_key(names::wal_name()) && old(
                self,
            ).lsm().is_sound(old(self).files()) ==> old(self).write_is_blocked(
                (RecordView {
                    kind: RecordKind::Vector,
                    key: key@,
                    value: codec::u32s_bytes(embedding@),
                }),
            ),
            if old(self).refuses_embedding(embedding@) {
                r matches Err(Error::InvalidArgument(_)) && old(self).unchanged(final(self))
            } else {
                let rec = (RecordView {
                    kind: RecordKind::Vector,
                    key: key@,
                    value: codec::u32s_bytes(embedding@),
                });
                &&& old(self).writes(rec, final(self), r)
                &&& r is Err && old(self).is_healthy() && !old(self).lsm().is_closed()
                    && rec.valid() ==> old(self).write_is_blocked(rec)
                &&& r is Err ==> {
                    let stored = final(self).index().indexed(key@);
                    ||| final(self).index() == old(self).index()
                    ||| stored == insert::prepared(
                        &old(self).arithmetic(),
                        old(self).index().graph().spec_params().metric,
                        embedding@,
                    )
                }
                &&& r is Ok ==> {
                    let p = insert::prepared(
                        &old(self).arithmetic(),
                        old(self).index().graph().spec_params().metric,
                        embedding@,
                    );
                    &&& p is Some
                    &&& final(self).index().indexed(key@) == p
                    &&& final(self).index().dim() == Some(embedding@.len() as usize)
                    &&& old(self).index().replaces(
                        &old(self).arithmetic(),
                        key@,
                        embedding@,
                        final(self).index().graph(),
                    )
                    &&& old(self).index().rekeys(
                        key@,
                        Some(old(self).index().graph().nodes().len() as u32),
                        &final(self).index(),
                    )
                }
                &&& r is Ok ==> old(self).acknowledges(rec, final(self))
                &&& r is Ok && (old(self).lsm().is_ordered() || !old(self).compaction_is_due(rec))
                    ==> {
                    &&& forall|k: Seq<u8>| #[trigger]
                        old(self).index_fits(k) || k == key@ ==> final(self).index_fits(k)
                    &&& old(self).index_in_step() ==> final(self).index_in_step()
                }
            },
    {
        if embedding.len() == 0 {
            return Err(invalid_argument("embedding must have at least one dimension"));
        }
        if !check_finite(embedding) {
            proof {
                lemma_has_infinite(embedding@);
            }
            return Err(
                invalid_argument("embedding contains non-finite values (NaN or infinity)"),
            );
        }
        match self.vector_index.expected_dim() {
            Some(d) => {
                if embedding.len() != d {
                    return Err(
                        invalid_argument(
                            "embedding dimension does not match established dimension",
                        ),
                    );
                }
            },
            None => {},
        }
        if !self.inner.closed() && !self.vector_index.hnsw().accepts_vector(
            &self.math,
            embedding,
        ) {
            return Err(invalid_argument("embedding cannot be put into the index"));
        }
        let ghost before = *self;
        proof {
            codec::lemma_u32s_digits(embedding@);
        }
        let vector_bytes = encode_vector(embedding);
        let ghost rec = RecordView {
            kind: RecordKind::Vector,
            key: key@,
            value: codec::u32s_bytes(embedding@),
        };
        let changed = match self.write_lsm(RecordKind::Vector, key, vector_bytes.as_slice()) {
            Ok(c) => c,
            Err(e) => {
                return Err(e);
            },
        };
        let ghost wrote = *self;
        let ghost index0 = self.vector_index;
        self.vector_index.establish_dim(embedding.len());
        proof {
            vector::lemma_same_index(index0, self.vector_index);
        }
        self.vector_index.remove_key(&self.math, key);
        let ghost bare = self.vector_index.graph();
        proof {
            assert(self.vector_index.indexed(key@) is None);
            assert(before.index().drops(&before.arithmetic(), key@, bare));
            assert(before.index().rekeys(key@, None, &self.vector_index));
        }
        let ghost gone = self.vector_index;
        match self.vector_index.add_key(&self.math, copy_bytes(key), embedding) {
            Ok(_) => {},
            Err(e) => {
                assert(false);
                return Err(e);
            },
        }
        let ghost mid = *self;
        let r = self.refresh_snapshot(changed);
        proof {
            assert(before.index().replaces(
                &before.arithmetic(),
                key@,
                embedding@,
                self.index().graph(),
            ));
            assert forall|x: Seq<u8>| #[trigger] mid.index().node_of(x) == (if x == key@ {
                Some(before.index().graph().nodes().len() as u32)
            } else {
                before.index().node_of(x)
            }) by {
                assert(gone.node_of(x) == (if x == key@ {
                    None
                } else {
                    before.index().node_of(x)
                }));
            }
            before.lemma_then_snapshot(rec, &mid, self, r);
            before.lemma_files_around(&mid, self);
            vector::lemma_vector_round_trip(embedding@);
            if r is Ok && (before.lsm().is_ordered() || !before.compaction_is_due(rec)) {
                assert forall|k: Seq<u8>| #[trigger]
                    before.index_fits(k) || k == key@ implies mid.index_fits(k) && self.index_fits(
                    k,
                ) by {
                    assert(mid.lsm().value(mid.files(), k) == laws::updated(
                        before.lsm().view(before.files()),
                        rec,
                    )(k));
                    assert(self.value(k) == mid.value(k));
                }
                if before.index_in_step() {
                    assert forall|k: Seq<u8>| #[trigger] mid.index_fits(k) by {
                        assert(before.index_fits(k));
                    }
                    before.lemma_index_in_step(&mid, self, changed);
                }
            }
        }
        r
    }

    /// Looks up `key`: memtable, then the tables, newest first.
    pub fn get(&self, key: &[u8]) -> (r: Result<Option<Vec<u8>>>)
        requires
            self.wf(),
        ensures
            if self.lsm().is_closed() {
                r matches Err(Error::Closed)
            } else {
                self.lsm().answers(self.files(), key@, r)
            },
            self.backend().is_reliable() ==> (r matches Err(Error::Io(_)) ==> exists|i: int| #[trigger]
                self.lsm().levels().decides(self.files(), key@, i, Scan::Lost)),
            !self.lsm().is_closed() && self.backend().is_reliable() && self.lsm().is_sound(
                self.files(),
            ) ==> r is Ok,
            !self.lsm().is_closed() && self.lsm().is_sound(self.files()) && r is Ok ==> match self.value(
                key@,
            ) {
                Some(EntryView::Put(v)) => r->Ok_0 matches Some(x) && x@ == v,
                Some(EntryView::Vector(v)) => r->Ok_0 matches Some(x) && x@ == v,
                _ => r->Ok_0 is None,
            },
    {
        if self.inner.closed() {
            return Err(Error::Closed);
        }
        self.inner.get(&self.io, key)
    }

    /// Finds the `k` approximate nearest neighbours of `query`, closest first.
    pub fn nearest(&self, query: &[u32], k: usize) -> (r: Result<Vec<NearestResult>>)
        requires
            self.wf(),
        ensures
            self.lsm().is_closed() ==> r matches Err(Error::Closed),
            !self.lsm().is_closed() ==> match r {
                Ok(out) => {
                    &&& exists|hits: Seq<(u32, u32)>| #[trigger]
                        self.index().are_hits(&self.arithmetic(), query@, k, hits) && out@.len()
                            == hits.len() && forall|i: int|
                            0 <= i < out@.len() ==> self.index().names_hit(
                                hits[i],
                                #[trigger] out@[i],
                            )
                    &&& out@.len() <= k
                    &&& self.index().are_keys_by_distance(&self.arithmetic(), query@, out@)
                },
                Err(e) => e is InvalidArgument && self.index().refuses_query(
                    &self.arithmetic(),
                    query@,
                    k,
                ),
            },
    {
        if self.inner.closed() {
            return Err(Error::Closed);
        }
        self.vector_index.nearest(&self.math, query, k)
    }

    /// Finds the `k` nearest neighbours of `query` whose key satisfies
    /// `predicate`, closest first; all of them if fewer than `k` do.
    pub fn nearest_filtered<F: Fn(&[u8]) -> bool>(
        &self,
        query: &[u32],
        k: usize,
        predicate: F,
    ) -> (r: Result<Vec<NearestResult>>)
        requires
            self.wf(),
            forall|key: &[u8]| #[trigger] call_requires(predicate, (key,)),
        ensures
            self.lsm().is_closed() ==> r matches Err(Error::Closed),
            !self.lsm().is_closed() ==> match r {
                Ok(out) => {
                    &&& out@.len() <= k
                    &&& self.index().are_keys_by_distance(&self.arithmetic(), query@, out@)
                    &&& forall|i: int|
                        0 <= i < out@.len() ==> query::says(
                            predicate,
                            (#[trigger] out@[i]).key@,
                            true,
                        )
                    &&& if k == 0 || graph::live_count(self.index().graph().nodes()) == 0 {
                        out@.len() == 0
                    } else {
                        self.index().is_filtered(&self.arithmetic(), query@, k, predicate, out@)
                    }
                    &&& out@.len() < k && self.index().fits_query(&self.arithmetic(), query@)
                        ==> self.index().takes_all(predicate, out@)
                },
                Err(e) => {
                    &&& e is InvalidArgument
                    &&& graph::live_count(self.index().graph().nodes()) > 0
                    &&& self.index().refuses_query(&self.arithmetic(), query@, k)
                },
            },
    {
        if self.inner.closed() {
            return Err(Error::Closed);
        }
        self.vector_index.nearest_filtered(&self.math, query, k, predicate)
    }

    /// Number of keys in the vector index.
    pub fn vector_count(&self) -> (n: usize)
        ensures
            n == graph::live_count(self.index().graph().nodes()),
    {
        self.vector_index.live_count()
    }

    /// Writes the memtable to a new table and starts a fresh log; compacts the
    /// levels if that is due.
    pub fn flush(&mut self) -> (r: Result<()>)
        requires
            old(self).wf(),
        ensures
            final(self).wf(),
            old(self).same_setup(final(self)),
            final(self).index() == old(self).index(),
            old(self).lsm().is_ordered() ==> final(self).lsm().is_ordered(),
            old(self).lsm().is_sound(old(self).files()) ==> final(self).lsm().is_sound(
                final(self).files(),
            ),
            r is Ok ==> old(self).snapshot_follows(final(self)),
            r is Ok ==> old(self).flushes(final(self)),
            old(self).others_stay(final(self)),
            r is Err && !old(self).lsm().is_closed() && old(self).backend().is_reliable() && old(
                self,
            ).files().contains_key(names::wal_name()) && old(self).lsm().is_sound(
                old(self).files(),
            ) ==> old(self).lsm().settle_is_blocked(
                old(self).files(),
                old(self).lsm().mem().len() > 0,
                old(self).config().l0_compaction_trigger,
                old(self).config().bloom_bits_per_key,
            ),
            final(self).lsm().new_tables_filtered(
                final(self).files(),
                old(self).lsm().next_id(),
                old(self).config().bloom_bits_per_key,
            ),
            old(self).lsm().is_ordered() || !old(self).lsm().compaction_is_due(
                old(self).lsm().mem().len() > 0,
                old(self).config().l0_compaction_trigger,
            ) ==> {
                &&& forall|k: Seq<u8>| #[trigger] final(self).value(k) == old(self).value(k)
                &&& forall|k: Seq<u8>| #[trigger]
                    old(self).index_fits(k) ==> final(self).index_fits(k)
                &&& r is Ok && old(self).index_in_step() ==> final(self).index_in_step()
            },
            if old(self).lsm().is_closed() {
                r matches Err(Error::Closed) && old(self).unchanged(final(self))
            } else {
                match r {
                    Ok(_) => {
                        &&& final(self).lsm().mem().len() == 0
                        &&& old(self).lsm().mem().len() > 0 ==> final(self).lsm().mem_size() == 0
                        &&& old(self).lsm().levels_follow(
                            old(self).lsm().mem().len() > 0,
                            old(self).config().l0_compaction_trigger,
                            &final(self).lsm(),
                        )
                        &&& old(self).lsm().stays_in_step(
                            old(self).files(),
                            old(self).lsm().mem().len() > 0,
                            &final(self).lsm(),
                            final(self).files(),
                        )
                        &&& old(self).durable() ==> final(self).durable()
                        &&& old(self).is_healthy() ==> final(self).is_healthy()
                        &&& old(self).backend().is_reliable() && old(self).is_clean()
                            ==> final(self).is_clean()
                        &&& old(self).backend().is_reliable() && old(self).is_clean() && old(
                            self,
                        ).lsm().compaction_is_due(
                            old(self).lsm().mem().len() > 0,
                            old(self).config().l0_compaction_trigger,
                        ) ==> final(self).lsm().has_no_empty_table(final(self).files())
                    },
                    Err(e) => {
                        &&& !(e is Closed)
                        &&& old(self).is_healthy() ==> old(self).lsm().settle_is_blocked(
                            old(self).files(),
                            old(self).lsm().mem().len() > 0,
                            old(self).config().l0_compaction_trigger,
                            old(self).config().bloom_bits_per_key,
                        )
                        &&& old(self).in_step() ==> old(self).lsm().leaves(
                            old(self).files(),
                            None,
                            final(self).files(),
                        )
                        &&& old(self).is_ready() ==> final(self).is_ready()
                        &&& old(self).is_ready() && old(self).is_kept() ==> final(self).is_kept()
                           
                    },
                }
            },
    {
        if self.inner.closed() {
            proof {
                lsm::write::lemma_none_is_new(self.lsm(), self.files());
            }
            return Err(Error::Closed);
        }
        let ghost before = *self;
        let ghost keeps = before.lsm().is_ordered() || !before.lsm().compaction_is_due(
            before.lsm().mem().len() > 0,
            before.config().l0_compaction_trigger,
        );
        let before_id = self.inner.next_table_id();
        match self.inner.settle(&mut self.io, &self.options, true) {
            Ok(_) => {},
            Err(e) => {
                proof {
                    before.lemma_same_values(self, keeps);
                }
                return Err(e);
            },
        }
        let ghost mid = *self;
        let changed = self.inner.next_table_id() != before_id;
        let r = self.refresh_snapshot(changed);
        proof {
            mid.lemma_snapshots_apart(self);
            before.lemma_files_around(&mid, self);
            if keeps {
                assert forall|k: Seq<u8>| #[trigger] self.value(k) == before.value(k) by {
                    assert(self.value(k) == mid.value(k));
                    assert(mid.lsm().value(mid.files(), k) == before.lsm().value(
                        before.files(),
                        k,
                    ));
                }
            }
            before.lemma_same_values(self, keeps);
            before.lemma_same_values(&mid, keeps);
            if r is Ok && keeps && before.index_in_step() {
                assert forall|k: Seq<u8>| #[trigger] mid.index_fits(k) by {
                    assert(before.index_fits(k));
                }
                before.lsm().levels().lemma_files(before.files());
                before.lemma_index_in_step(&mid, self, changed);
            }
            if before.in_step() {
                mend::lemma_is_ready(before.lsm(), before.files());
            }
            if before.in_step() && mid.in_step() {
                laws::lemma_files_stand_for_engine(mid.lsm(), mid.files());
                assert(mid.lsm().view(mid.files()) =~= before.lsm().view(before.files())) by {
                    assert forall|k: Seq<u8>| #[trigger] mid.lsm().view(mid.files())(k)
                        == before.lsm().view(before.files())(k) by {
                        assert(mid.lsm().value(mid.files(), k) == before.lsm().value(
                            before.files(),
                            k,
                        ));
                    }
                }
            }
        }
        r
    }

    /// The same values and the same index fit as before.
    proof fn lemma_same_values(&self, after: &Self, keeps: bool)
        requires
            after.index() == self.index(),
            after.arithmetic() == self.arithmetic(),
            keeps ==> self.lsm().shows_same(
                self.files(),
                &after.lsm(),
                after.files(),
            ),
        ensures
            keeps ==> forall|k: Seq<u8>| #[trigger]
                after.value(k) == self.value(k),
            keeps ==> forall|k: Seq<u8>| #[trigger]
                self.index_fits(k) ==> after.index_fits(k),
    {
        if keeps {
            assert forall|k: Seq<u8>| #[trigger] after.value(k) == self.value(k) by {
                assert(after.lsm().value(after.files(), k) == self.lsm().value(self.files(), k));
            }
            assert forall|k: Seq<u8>| #[trigger] self.index_fits(k) implies after.index_fits(k) by {
                assert(after.value(k) == self.value(k));
            }
        }
    }

    /// Syncs the log and closes the engine: writes, lookups, queries and flushes
    /// fail from then on. Idempotent.
    pub fn close(&mut self) -> (r: Result<()>)
        requires
            old(self).wf(),
        ensures
            final(self).wf(),
            final(self).arithmetic() == old(self).arithmetic(),
            final(self).config() == old(self).config(),
            final(self).index() == old(self).index(),
            final(self).files() == old(self).files(),
            forall|k: Seq<u8>| #[trigger] final(self).value(k) == old(self).value(k),
            old(self).in_step() ==> final(self).in_step(),
            match r {
                Ok(_) => {
                    &&& final(self).lsm().is_closed()
                    &&& old(self).lsm().is_closed() || final(self).backend().is_synced(
                        names::wal_name(),
                    )
                },
                Err(e) => {
                    &&& e is Io
                    &&& !old(self).lsm().is_closed()
                    &&& !final(self).lsm().is_closed()
                    &&& !old(self).is_healthy()
                },
            },
            old(self).is_healthy() ==> final(self).is_healthy(),
            old(self).index_in_step() ==> final(self).index_in_step(),
    {
        let ghost before = *self;
        let r = self.inner.close(&mut self.io);
        proof {
            if before.index_in_step() {
                assert forall|k: Seq<u8>| #[trigger] self.index_fits(k) by {
                    assert(before.index_fits(k));
                }
            }
        }
        r
    }

    /// Number of tables.
    pub fn sstable_count(&self) -> (n: usize)
        ensures
            n == self.lsm().refs().len() || self.lsm().refs().len() > usize::MAX,
    {
        let (l0, l1) = self.level_counts();
        l0.saturating_add(l1)
    }

    /// Number of tables at each level.
    pub fn level_counts(&self) -> (n: (usize, usize))
        ensures
            n.0 == self.lsm().levels().refs0().len(),
            n.1 == self.lsm().levels().refs1().len(),
    {
        self.inner.level_counts()
    }

    /// Number of entries of the memtable.
    pub fn memtable_len(&self) -> (n: usize)
        ensures
            n == self.lsm().mem().len(),
    {
        self.inner.memtable_len()
    }

    /// The directory of the engine.
    pub fn path(&self) -> (p: &str)
        ensures
            p@ == self.config().path@,
    {
        self.options.path.as_str()
    }

    /// Gives the storage backend back.
    pub fn into_io(self) -> (io: I)
        ensures
            io == self.backend(),
    {
        self.io
    }
}

} // verus!
