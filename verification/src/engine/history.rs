//! What an engine holds after any number of operations, and whoever opens its
//! files then.

use crate::assoc;
use crate::engine::lsm;
use crate::engine::lsm::index;
use crate::engine::lsm::index_laws;
use crate::engine::lsm::laws;
use crate::engine::lsm::mend;
use crate::engine::lsm::recover;
use crate::engine::lsm::snapshots;
use crate::engine::lsm::EngineInner;
use crate::engine::names;
use crate::engine::state;
use crate::engine::vector;
use crate::engine::Engine;
use crate::hnsw::insert;
use crate::hnsw::math::VectorMath;
use crate::hnsw::snapshot::SnapshotView;
use crate::io;
use crate::io::Io;
use crate::memtable::EntryView;
use crate::wal::record::RecordView;
use vstd::prelude::*;

verus! {

/// An operation.
pub enum Step {
    /// A write of a record.
    Write(RecordView),
    /// A flush.
    Flush,
}

/// What the keys hold after `steps`, if they held `view` before.
pub open spec fn told(
    view: spec_fn(Seq<u8>) -> Option<EntryView>,
    steps: Seq<Step>,
) -> spec_fn(Seq<u8>) -> Option<EntryView>
    decreases steps.len(),
{
    if steps.len() == 0 {
        view
    } else {
        match steps.last() {
            Step::Write(rec) => laws::updated(told(view, steps.drop_last()), rec),
            Step::Flush => told(view, steps.drop_last()),
        }
    }
}

impl<I: Io, M: VectorMath> Engine<I, M> {
    /// What the keys hold.
    pub open spec fn contents(&self) -> spec_fn(Seq<u8>) -> Option<EntryView> {
        self.lsm().view(self.files())
    }

    /// `steps` were done, one after the other, and each was acknowledged; they
    /// led from each of `states` to the next.
    pub open spec fn is_history(states: Seq<Self>, steps: Seq<Step>) -> bool {
        &&& states.len() == steps.len() + 1
        &&& forall|i: int|
            0 <= i < steps.len() ==> match #[trigger] steps[i] {
                Step::Write(rec) => states[i].acknowledges(rec, &states[i + 1]),
                Step::Flush => states[i].flushes(&states[i + 1]),
            }
    }

    /// The embeddings that the keys hold have the dimension of the graph, which
    /// is the one that was asked for, if one was, and can be compared.
    pub open spec fn is_uniform(&self) -> bool {
        let d = self.index().graph().spec_dim();
        let params = self.config().hnsw_params;
        &&& params.dim == 0 || params.dim == d
        &&& self.index().graph().spec_params().metric == params.metric
        &&& forall|k: Seq<u8>| #[trigger]
            self.value(k) matches Some(EntryView::Vector(b)) ==> d != 0 && b.len() == 4 * d
                && insert::prepared(
                &self.arithmetic(),
                params.metric,
                vector::components(b),
            ) is Some
    }

    /// An engine that was opened where there are no files holds nothing, and
    /// its embeddings go together.
    pub proof fn lemma_fresh(&self, mid: io::Files)
        requires
            self.lsm().recovered_from(Map::empty()),
            recover::opens_to(Map::empty(), mid, self.lsm().refs()),
            self.lsm().index_recovered(
                mid,
                &self.arithmetic(),
                self.config().hnsw_params,
                self.index(),
            ),
            forall|k: Seq<u8>| #[trigger]
                self.value(k) == state::recovered(
                    Map::empty(),
                    self.lsm().levels().refs0(),
                    self.lsm().levels().refs1(),
                    k,
                ),
        ensures
            forall|k: Seq<u8>| #[trigger] self.value(k) is None,
            self.is_uniform(),
    {
        let none: io::Files = Map::empty();
        let e = self.lsm();
        let params = self.config().hnsw_params;
        let l0 = e.levels().refs0();
        let l1 = e.levels().refs1();
        assert(state::log_records(none) =~= Seq::empty());
        if l0.len() > 0 {
            assert(state::is_sst(none, l0[0].1, 0, l0[0].0));
        }
        assert(l0 + l1 =~= Seq::empty());
        assert(e.refs() =~= Seq::empty());
        if e.mem().len() > 0 {
            let k = e.mem()[0].0;
            assert(assoc::has_key(e.mem(), k));
            assert(assoc::find(e.mem(), k) == state::replayed(state::log_records(none), k));
        }
        assert(e.mem() =~= Seq::empty());
        let tables = state::tables_in(none, state::names_of(l0 + l1));
        assert(tables =~= Seq::empty());
        assert forall|k: Seq<u8>| #[trigger] self.value(k) is None by {
            assert(state::newest(tables, k) is None);
        }
        assert forall|n: Seq<u8>, id: u64| !(#[trigger] snapshots::is_latest(mid, n, id)) by {
            if snapshots::is_latest(mid, n, id) {
                assert(snapshots::is_snapshot(mid, n, id));
                assert(mid.contains_key(n));
                if n == names::wal_name() {
                    snapshots::lemma_snapshot_is_other(n);
                }
            }
        }
        let sources = e.sources_since(mid, 0);
        assert(index::since(e.refs(), 0) =~= Seq::empty());
        assert(sources =~= seq![e.mem()]);
        assert(sources.drop_last() =~= Seq::empty());
        reveal_with_fuel(index::all_entries, 2);
        assert(index::all_entries(sources) =~= Seq::empty());
        let start = choose|start: vector::VectorIndex| #[trigger]
            snapshots::is_fresh(start, params) && index::built(
                &self.arithmetic(),
                start,
                index::all_entries(sources),
                self.index(),
            );
        assert(self.index().graph() == start.graph());
    }

    /// One step more.
    proof fn lemma_step(states: Seq<Self>, steps: Seq<Step>)
        requires
            Self::is_history(states, steps),
            steps.len() > 0,
            states[steps.len() - 1].in_step(),
            states[steps.len() - 1].contents() == told(
                states[0].contents(),
                steps.drop_last(),
            ),
        ensures
            states[steps.len() as int].in_step(),
            states[steps.len() as int].contents() == told(states[0].contents(), steps),
            states[steps.len() - 1].goes_on(&states[steps.len() as int]),
            states[steps.len() - 1].index_in_step() ==> states[steps.len() as int].index_in_step(),
            states[steps.len() - 1].is_uniform() ==> states[steps.len() as int].is_uniform(),
    {
        let n = steps.len() - 1;
        let a = states[n];
        let b = states[n + 1];
        let goal = told(states[0].contents(), steps);
        mend::lemma_is_ready(a.lsm(), a.files());
        match steps[n] {
            Step::Write(rec) => {
                assert(a.acknowledges(rec, &b));
                assert forall|k: Seq<u8>| #[trigger] b.contents()(k) == goal(k) by {
                    assert(b.lsm().value(b.files(), k) == laws::updated(a.contents(), rec)(k));
                }
                if a.is_uniform() {
                    assert forall|k: Seq<u8>| #[trigger]
                        b.value(k) matches Some(EntryView::Vector(x)) implies {
                        let x = b.value(k)->0->Vector_0;
                        let d = b.index().graph().spec_dim();
                        d != 0 && x.len() == 4 * d && insert::prepared(
                            &b.arithmetic(),
                            b.config().hnsw_params.metric,
                            vector::components(x),
                        ) is Some
                    } by {
                        assert(b.lsm().value(b.files(), k) == laws::updated(a.contents(), rec)(k));
                        if k != rec.key {
                            assert(b.value(k) == a.value(k));
                        }
                    }
                }
            },
            Step::Flush => {
                assert(a.flushes(&b));
                assert forall|k: Seq<u8>| #[trigger] b.contents()(k) == goal(k) by {
                    assert(b.value(k) == a.value(k));
                }
                if a.is_uniform() {
                    assert forall|k: Seq<u8>| #[trigger]
                        b.value(k) matches Some(EntryView::Vector(x)) implies {
                        let x = b.value(k)->0->Vector_0;
                        let d = b.index().graph().spec_dim();
                        d != 0 && x.len() == 4 * d && insert::prepared(
                            &b.arithmetic(),
                            b.config().hnsw_params.metric,
                            vector::components(x),
                        ) is Some
                    } by {
                        assert(b.value(k) == a.value(k));
                    }
                }
            },
        }
        assert(b.contents() =~= goal);
    }

    /// After any number of operations, each of them acknowledged, the engine
    /// holds for each key what was written last, the files stand for that, and
    /// the index, its snapshot and the embeddings are as they should be, if
    /// they were before.
    pub proof fn lemma_history(states: Seq<Self>, steps: Seq<Step>)
        requires
            Self::is_history(states, steps),
            states[0].in_step(),
        ensures
            states.last().in_step(),
            states.last().contents() == told(states[0].contents(), steps),
            state::stands_for(states.last().files(), told(states[0].contents(), steps)),
            states[0].lsm().is_sound(states[0].files()) ==> states.last().lsm().is_sound(
                states.last().files(),
            ),
            states[0].index_in_step() ==> states.last().index_in_step(),
            states[0].is_uniform() ==> states.last().is_uniform(),
            states.last().config() == states[0].config(),
            states.last().arithmetic() == states[0].arithmetic(),
        decreases steps.len(),
    {
        let n = steps.len() as int;
        if n > 0 {
            let d = steps.drop_last();
            let s = states.drop_last();
            assert(Self::is_history(s, d)) by {
                assert forall|i: int| 0 <= i < d.len() implies match #[trigger] d[i] {
                    Step::Write(rec) => s[i].acknowledges(rec, &s[i + 1]),
                    Step::Flush => s[i].flushes(&s[i + 1]),
                } by {
                    assert(d[i] == steps[i]);
                    assert(s[i] == states[i] && s[i + 1] == states[i + 1]);
                }
            }
            assert(s[0] == states[0]);
            assert(s.last() == states[n - 1]);
            Self::lemma_history(s, d);
            Self::lemma_step(states, steps);
        }
        assert(states.last() == states[n]);
        laws::lemma_files_stand_for_engine(states.last().lsm(), states.last().files());
    }

    /// `self` was opened on `files`: it shows the state that these stand for,
    /// and has the index that their snapshots stand for.
    pub open spec fn shows_files(&self, files: io::Files) -> bool {
        &&& forall|view: spec_fn(Seq<u8>) -> Option<EntryView>| #[trigger]
            state::stands_for(files, view) ==> forall|k: Seq<u8>| #[trigger]
                self.value(k) == view(k)
        &&& index_laws::index_stands(&self.arithmetic(), files) ==> forall|k: Seq<u8>| #[trigger]
            self.index_fits(k)
    }

    /// `files` are those of the engine, but for the snapshots of the index:
    /// these are as they were, or none of them can be used.
    pub open spec fn keeps_but_snapshots(&self, files: io::Files) -> bool {
        ||| files == self.files()
        ||| {
            &&& index_laws::snapshots_tidy(files)
            &&& forall|n: Seq<u8>, v: SnapshotView| !(#[trigger] snapshots::is_usable(files, n, v))
            &&& forall|n: Seq<u8>|
                n == names::wal_name() || names::parse_sst(n) is Some ==> #[trigger] lsm::agree(
                    self.files(),
                    files,
                    n,
                )
        }
    }

    /// An engine that is opened on the files, after any number of operations,
    /// each of them acknowledged, shows for each key what was written last. Its
    /// index holds the embeddings that were written last, and no others,
    /// whether the snapshot is intact, missing or damaged.
    pub proof fn lemma_history_survives(
        states: Seq<Self>,
        steps: Seq<Step>,
        files: io::Files,
        reopened: &Self,
    )
        requires
            Self::is_history(states, steps),
            states[0].in_step(),
            states[0].index_in_step(),
            states.last().keeps_but_snapshots(files),
            reopened.arithmetic() == states[0].arithmetic(),
            reopened.shows_files(files),
        ensures
            forall|k: Seq<u8>| #[trigger]
                reopened.value(k) == told(states[0].contents(), steps)(k),
            forall|k: Seq<u8>| #[trigger] reopened.index_fits(k),
    {
        let e = states.last();
        let goal = told(states[0].contents(), steps);
        Self::lemma_history(states, steps);
        if files == e.files() {
            index_laws::lemma_index_stands(e.lsm(), e.files(), &e.arithmetic());
        } else {
            laws::lemma_others_stand(e.files(), files, goal);
        }
        assert(state::stands_for(files, goal));
    }

    /// An engine without damage can be opened again after any number of
    /// operations, each of them acknowledged, on the files or on those without
    /// a snapshot that can be used. What a machine cannot count or hold is left
    /// out.
    pub proof fn lemma_history_reopens(states: Seq<Self>, steps: Seq<Step>)
        requires
            Self::is_history(states, steps),
            states[0].in_step(),
            states[0].is_uniform(),
            states[0].lsm().is_sound(states[0].files()),
            states.last().lsm().next_id() < u64::MAX,
            forall|n: Seq<u8>| #[trigger]
                states.last().files().contains_key(n) ==> states.last().files()[n].len()
                    <= usize::MAX,
            forall|e: EngineInner, mid: io::Files| #[trigger]
                e.opened_from(states.last().files(), mid) ==> index::entry_total(
                    e.sources_since(mid, 0),
                ) <= u32::MAX,
        ensures
            !Self::cannot_open(
                states.last().files(),
                &states[0].arithmetic(),
                states[0].config().hnsw_params,
            ),
    {
        let e = states.last();
        let params = states[0].config().hnsw_params;
        Self::lemma_history(states, steps);
        let d = e.index().graph().spec_dim() as int;
        if d == 0 {
            let any = if params.dim == 0 {
                1int
            } else {
                params.dim as int
            };
            e.lemma_reopens(params, any);
        } else {
            e.lemma_reopens(params, d);
        }
    }
}

} // verus!
