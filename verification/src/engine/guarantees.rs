//! What the operations of an engine promise together.

use crate::engine::lsm;
use crate::engine::lsm::index;
use crate::engine::lsm::index_laws;
use crate::engine::lsm::laws;
use crate::engine::lsm::mend;
use crate::engine::lsm::EngineInner;
use crate::engine::names;
use crate::engine::query;
use crate::engine::query::NearestResult;
use crate::engine::state;
use crate::engine::vector;
use crate::engine::Engine;
use crate::error::Result;
use crate::hnsw::insert;
use crate::hnsw::math::VectorMath;
use crate::hnsw::{DistanceMetric, HnswParams};
use crate::io;
use crate::io::Io;
use crate::memtable::EntryView;
use crate::wal::record::RecordView;
use vstd::prelude::*;

verus! {

impl<I: Io, M: VectorMath> Engine<I, M> {
    /// Readers see what was written: after a write of `rec` that was
    /// acknowledged, a lookup gives the value of `rec` for its key, nothing if
    /// `rec` deletes it, and for any other key what it held before.
    pub proof fn lemma_read_your_writes(
        &self,
        rec: RecordView,
        after: &Self,
        k: Seq<u8>,
        r: Result<Option<Vec<u8>>>,
    )
        requires
            self.lsm().is_ordered(),
            !self.lsm().is_closed(),
            rec.valid(),
            self.writes(rec, after, Ok(())),
            after.lsm().is_sound(after.files()),
            after.lsm().answers(after.files(), k, r),
            r is Ok,
        ensures
            lsm::gives(
                r->Ok_0,
                if k == rec.key {
                    state::record_entry(rec).visible()
                } else {
                    state::shown(self.value(k))
                },
            ),
    {
        assert(after.lsm().value(after.files(), k) == laws::updated(
            self.lsm().view(self.files()),
            rec,
        )(k));
    }

    /// A write that was acknowledged survives: its files stand for the state
    /// with the write in it, and an engine that is opened on them shows that
    /// state.
    pub proof fn lemma_write_survives(&self, rec: RecordView, after: &Self, reopened: &Self)
        requires
            self.is_ready(),
            !self.lsm().is_closed(),
            rec.valid(),
            self.writes(rec, after, Ok(())),
            forall|view: spec_fn(Seq<u8>) -> Option<EntryView>| #[trigger]
                state::stands_for(after.files(), view) ==> forall|k: Seq<u8>| #[trigger]
                    reopened.value(k) == view(k),
        ensures
            state::stands_for(after.files(), laws::updated(self.lsm().view(self.files()), rec)),
            forall|k: Seq<u8>| #[trigger]
                reopened.value(k) == laws::updated(self.lsm().view(self.files()), rec)(k),
    {
        let view = laws::updated(self.lsm().view(self.files()), rec);
        laws::lemma_files_stand_for_engine(after.lsm(), after.files());
        assert(after.lsm().view(after.files()) =~= view) by {
            assert forall|k: Seq<u8>| #[trigger] after.lsm().view(after.files())(k) == view(k) by {
                assert(after.lsm().value(after.files(), k) == view(k));
            }
        }
        assert forall|k: Seq<u8>| #[trigger] reopened.value(k) == view(k) by {
            assert(state::stands_for(after.files(), view));
        }
    }

    /// The file `n` is not there, but may come back if its directory was not
    /// synced since it was removed: a table that was merged into the one at the
    /// bottom level.
    pub open spec fn may_come_back(&self, n: Seq<u8>) -> bool {
        &&& !self.files().contains_key(n)
        &&& names::parse_sst(n) matches Some(p) && n == names::sst_name(p.0, p.1)
            && self.lsm().is_buried(p.0, p.1)
    }

    /// `after` is what a loss of power may leave of the files. What is on stable
    /// storage, under a name that is too, is there. Of the rest of log and
    /// tables, files may be missing, the content of those that were not synced
    /// may be anything, and tables that were merged may come back. Other files
    /// may be there or not, with any content. Not covered are a log or another
    /// table that was removed or replaced and comes back, because its directory
    /// was not synced since.
    pub open spec fn power_loss_leaves(&self, after: io::Files) -> bool {
        &&& forall|n: Seq<u8>| #[trigger]
            after.contains_key(n) && (n == names::wal_name() || names::parse_sst(n) is Some) ==> {
                ||| self.files().contains_key(n) && (self.backend().is_synced(n) ==> after[n]
                    == self.files()[n])
                ||| self.may_come_back(n)
            }
        &&& forall|n: Seq<u8>| #[trigger]
            self.files().contains_key(n) && self.backend().is_synced(n) && self.backend().is_linked(
                n,
            ) ==> after.contains_key(n)
    }

    /// A loss of power loses nothing that was acknowledged: what it leaves of
    /// the files stands for the state that the engine showed. A table that is
    /// left from a flush that did not come to its end has to be synced.
    pub proof fn lemma_power_loss(&self, after: io::Files)
        requires
            self.in_step(),
            self.durable(),
            self.power_loss_leaves(after),
            forall|n: Seq<u8>| #[trigger]
                state::is_sst(self.files(), n, 0, self.lsm().next_id())
                    ==> self.backend().is_synced(n),
        ensures
            self.lsm().in_step(after),
            state::stands_for(after, self.lsm().view(self.files())),
    {
        let e = self.lsm();
        let files = self.files();
        let wal = names::wal_name();
        e.levels().lemma_files(files);
        assert(e.tables_kept(files, after)) by {
            assert forall|i: int| 0 <= i < e.refs().len() implies after.contains_key(
                (#[trigger] e.refs()[i]).1,
            ) && after[e.refs()[i].1] == files[e.refs()[i].1] by {
                assert(e.table_named(i));
                assert(files.contains_key(e.refs()[i].1));
                assert(after.contains_key(e.refs()[i].1));
            }
        }
        e.lemma_kept(files, after);
        assert(files.contains_key(wal) && after.contains_key(wal));
        laws::lemma_log_of(after, state::log_records(files));
        assert(laws::is_tidy(after)) by {
            assert forall|n: Seq<u8>, level: u8, id: u64| #[trigger]
                state::is_sst(after, n, level, id) implies n == names::sst_name(level, id) by {
                assert(after.contains_key(n));
                assert(files.contains_key(n) ==> state::is_sst(files, n, level, id));
            }
        }
        assert forall|n: Seq<u8>, level: u8, id: u64| #[trigger]
            state::is_sst(after, n, level, id) implies e.is_placed(after, n, level, id) by {
            assert(after.contains_key(n));
            if files.contains_key(n) {
                assert(state::is_sst(files, n, level, id));
                assert(e.is_placed(files, n, level, id));
            }
        }
        laws::lemma_files_stand_for_engine(e, after);
        assert(e.view(after) =~= e.view(files)) by {
            assert forall|k: Seq<u8>| #[trigger] e.view(after)(k) == e.view(files)(k) by {
                assert(e.entry(after, k) == e.entry(files, k));
            }
        }
    }

    /// A write that failed is there or not, but nothing else is lost: an
    /// engine that is opened on what it left shows the state before it or the
    /// state after it.
    pub proof fn lemma_failed_write_leaves(
        &self,
        rec: RecordView,
        after: &Self,
        r: Result<()>,
        reopened: &Self,
    )
        requires
            self.in_step(),
            !self.lsm().is_closed(),
            rec.valid(),
            self.writes(rec, after, r),
            r is Err,
            forall|view: spec_fn(Seq<u8>) -> Option<EntryView>| #[trigger]
                state::stands_for(after.files(), view) ==> forall|k: Seq<u8>| #[trigger]
                    reopened.value(k) == view(k),
        ensures
            (forall|k: Seq<u8>| #[trigger] reopened.value(k) == self.value(k)) || (forall|k: Seq<u8>|
                #[trigger]
                reopened.value(k) == laws::updated(self.lsm().view(self.files()), rec)(k)),
    {
        let before = self.lsm().view(self.files());
        let updated = laws::updated(before, rec);
        if state::stands_for(after.files(), before) {
            assert forall|k: Seq<u8>| #[trigger] reopened.value(k) == self.value(k) by {
                assert(reopened.value(k) == before(k));
            }
        } else {
            assert(state::stands_for(after.files(), updated));
        }
    }

    /// However many writes failed, nothing that was acknowledged is lost: an
    /// engine that is opened on the files shows what this one shows, or that
    /// with one record more, which was not acknowledged; and what this one shows
    /// is what it showed before, with the new record or without it.
    pub proof fn lemma_failures_lose_nothing(
        &self,
        rec: RecordView,
        after: &Self,
        r: Result<()>,
        reopened: &Self,
    )
        requires
            self.is_ready(),
            self.is_kept(),
            !self.lsm().is_closed(),
            rec.valid(),
            self.writes(rec, after, r),
            reopened.shows_files(after.files()),
        ensures
            after.is_ready(),
            after.is_kept(),
            after.contents() == self.contents() && r is Err || after.contents() == laws::updated(
                self.contents(),
                rec,
            ),
            reopened.contents() == after.contents() || r is Err && exists|more: RecordView|
                reopened.contents() == #[trigger] laws::updated(after.contents(), more),
    {
        let view = after.contents();
        if r is Ok {
            mend::lemma_is_ready(after.lsm(), after.files());
            laws::lemma_files_stand_for_engine(after.lsm(), after.files());
        }
        if self.lsm().shows_same(self.files(), &after.lsm(), after.files()) {
            assert forall|k: Seq<u8>| #[trigger] after.contents()(k) == self.contents()(k) by {
                assert(after.lsm().value(after.files(), k) == self.lsm().value(self.files(), k));
            }
            assert(after.contents() =~= self.contents());
        }
        if self.lsm().shows_update(self.files(), rec, &after.lsm(), after.files()) {
            assert forall|k: Seq<u8>| #[trigger] after.contents()(k) == laws::updated(
                self.contents(),
                rec,
            )(k) by {
                assert(after.lsm().value(after.files(), k) == laws::updated(
                    self.contents(),
                    rec,
                )(k));
            }
            assert(after.contents() =~= laws::updated(self.contents(), rec));
        }
        if state::stands_for(after.files(), view) {
            assert forall|k: Seq<u8>| #[trigger] reopened.contents()(k) == view(k) by {
                assert(reopened.value(k) == view(k));
            }
            assert(reopened.contents() =~= view);
        } else {
            let more = choose|more: RecordView| #[trigger]
                state::stands_for(after.files(), laws::updated(view, more));
            assert forall|k: Seq<u8>| #[trigger] reopened.contents()(k) == laws::updated(
                view,
                more,
            )(k) by {
                assert(reopened.value(k) == laws::updated(view, more)(k));
            }
            assert(reopened.contents() =~= laws::updated(view, more));
        }
    }

    /// A write that failed does not stand in the way of the next one: what is
    /// acknowledged after it survives.
    pub proof fn lemma_write_after_failure(
        &self,
        rec: RecordView,
        failed: &Self,
        r: Result<()>,
        next: RecordView,
        after: &Self,
        reopened: &Self,
    )
        requires
            self.is_ready(),
            !self.lsm().is_closed(),
            rec.valid(),
            self.writes(rec, failed, r),
            r is Err,
            !failed.lsm().is_closed(),
            next.valid(),
            failed.writes(next, after, Ok(())),
            forall|view: spec_fn(Seq<u8>) -> Option<EntryView>| #[trigger]
                state::stands_for(after.files(), view) ==> forall|k: Seq<u8>| #[trigger]
                    reopened.value(k) == view(k),
        ensures
            forall|k: Seq<u8>| #[trigger]
                reopened.value(k) == laws::updated(failed.lsm().view(failed.files()), next)(k),
    {
        failed.lemma_write_survives(next, after, reopened);
    }

    /// The index survives: if it holds for each key what it should, so does
    /// the index of an engine that is opened on the files, whether it is loaded
    /// from a snapshot or built anew.
    pub proof fn lemma_index_survives(&self, reopened: &Self)
        requires
            self.in_step(),
            self.index_in_step(),
            index_laws::index_stands(&self.arithmetic(), self.files()) ==> forall|k: Seq<u8>|
                #[trigger]
                reopened.index_fits(k),
        ensures
            forall|k: Seq<u8>| #[trigger] reopened.index_fits(k),
    {
        index_laws::lemma_index_stands(self.lsm(), self.files(), &self.arithmetic());
    }

    /// What shows is on stable storage: a write that is acknowledged is in a file
    /// that is synced, and so is one that failed, unless all keys read as
    /// before. Left out is a compaction of tables that share an id: it may
    /// decide for another of them than a lookup did.
    pub proof fn lemma_what_shows_is_durable(
        &self,
        rec: RecordView,
        after: &Self,
        r: Result<()>,
        k: Seq<u8>,
    )
        requires
            self.lsm().is_ordered() || !self.compaction_is_due(rec),
            !self.lsm().is_closed(),
            rec.valid(),
            self.writes(rec, after, r),
            r is Ok || after.value(k) != self.value(k),
        ensures
            k == rec.key || after.value(k) == self.value(k),
            after.lsm().is_recorded(&after.backend(), rec),
    {
        let then = after.lsm().value(after.files(), k);
        assert(then == self.lsm().value(self.files(), k) || then == laws::updated(
            self.lsm().view(self.files()),
            rec,
        )(k));
    }

    /// A query finds what the store holds: if the index holds for each key
    /// what it should, a key that is found holds an embedding, and its distance
    /// is the one from that embedding.
    pub proof fn lemma_found_is_held(&self, query: Seq<u32>, out: Seq<NearestResult>, i: int)
        requires
            forall|k: Seq<u8>| #[trigger] self.index_fits(k),
            self.index().are_keys_by_distance(&self.arithmetic(), query, out),
            0 <= i < out.len(),
        ensures
            self.value(out[i].key@) matches Some(EntryView::Vector(b)) && {
                let metric = self.index().graph().spec_params().metric;
                let stored = index::embedding(
                    &self.arithmetic(),
                    metric,
                    Some(EntryView::Vector(b)),
                );
                &&& stored is Some
                &&& out[i].distance == self.arithmetic().distance_of(
                    metric,
                    insert::prepared(&self.arithmetic(), metric, query)->0,
                    stored->0,
                )
            },
    {
        assert(self.index_fits(out[i].key@));
        assert(self.index().indexed(out[i].key@) is Some);
    }

    /// A query does not find a key that the index does not hold, such as one
    /// that was deleted.
    pub proof fn lemma_deleted_is_not_found(
        &self,
        key: Seq<u8>,
        query: Seq<u32>,
        out: Seq<NearestResult>,
    )
        requires
            self.index().indexed(key) is None,
            self.index().are_keys_by_distance(&self.arithmetic(), query, out),
        ensures
            forall|i: int| 0 <= i < out.len() ==> (#[trigger] out[i]).key@ != key,
    {
    }

    /// A filtered query that gives fewer than it was asked for gives every key
    /// that passes: one to which `predicate` says yes, and never no.
    pub proof fn lemma_filtered_is_complete<F: Fn(&[u8]) -> bool>(
        &self,
        predicate: F,
        out: Seq<NearestResult>,
        key: Seq<u8>,
    )
        requires
            self.index().takes_all(predicate, out),
            self.index().indexed(key) is Some,
            !query::says(predicate, key, false),
        ensures
            exists|i: int| 0 <= i < out.len() && (#[trigger] out[i]).key@ == key,
    {
    }

    /// All embeddings have `d` components, and can be stored in a graph.
    pub open spec fn embeddings_have(&self, metric: DistanceMetric, d: int) -> bool {
        forall|k: Seq<u8>| #[trigger]
            self.value(k) matches Some(EntryView::Vector(b)) ==> b.len() == 4 * d
                && insert::prepared(&self.arithmetic(), metric, vector::components(b)) is Some
    }

    /// An engine without damage whose embeddings have one dimension can be
    /// opened again on its files.
    pub proof fn lemma_reopens(&self, params: HnswParams, d: int)
        requires
            self.in_step(),
            self.lsm().is_sound(self.files()),
            self.lsm().next_id() < u64::MAX,
            forall|n: Seq<u8>| #[trigger]
                self.files().contains_key(n) ==> self.files()[n].len() <= usize::MAX,
            0 < d <= usize::MAX,
            params.dim == 0 || params.dim == d,
            self.embeddings_have(params.metric, d),
            forall|e: EngineInner, mid: io::Files| #[trigger]
                e.opened_from(self.files(), mid) ==> index::entry_total(e.sources_since(mid, 0))
                    <= u32::MAX,
        ensures
            !Self::cannot_open(self.files(), &self.arithmetic(), params),
    {
        let files = self.files();
        laws::lemma_opens_again(self.lsm(), files);
        assert forall|e: EngineInner, mid: io::Files| #[trigger]
            e.opened_from(files, mid) implies e.is_sound(mid) && e.embeddings_fit(
            mid,
            &self.arithmetic(),
            params,
        ) by {
            assert(e.embeddings_have(mid, &self.arithmetic(), params.metric, d)) by {
                assert forall|k: Seq<u8>| #[trigger]
                    e.entry(mid, k) matches Some(EntryView::Vector(b)) implies {
                    let b = e.entry(mid, k)->0->Vector_0;
                    b.len() == 4 * d && insert::prepared(
                        &self.arithmetic(),
                        params.metric,
                        vector::components(b),
                    ) is Some
                } by {
                    assert(e.value(mid, k) == self.lsm().value(files, k));
                    assert(self.value(k) == e.entry(mid, k));
                }
            }
        }
    }
}

} // verus!
