//! Compaction: all tables are merged into one at the bottom level.

use crate::assoc;
use crate::codec::same_bytes;
use crate::engine::discover;
use crate::engine::discover::remove_all;
use crate::engine::levels;
use crate::engine::levels::{LevelState, SsTableEntry};
use crate::engine::lsm;
use crate::engine::lsm::EngineInner;
use crate::engine::names;
use crate::engine::names::{parse_sst_filename, sst_filename, tmp_filename};
use crate::engine::options::Options;
use crate::engine::state;
use crate::error::{invalid_argument, Error, Result};
use crate::io;
use crate::io::Io;
use crate::memtable::{Entry, EntryView};
use crate::order;
use crate::sstable::layout;
use crate::sstable::layout::Pairs;
use crate::sstable::merge;
use crate::sstable::merge::{MergeSource, MergingIterator, SortedEntryIter};
use crate::sstable::writer;
use crate::sstable::writer::SsTableWriter;
use vstd::prelude::*;

verus! {

/// All entries of all queues fit.
pub open spec fn queues_fit(qs: Seq<Pairs>) -> bool {
    forall|i: int| 0 <= i < qs.len() ==> layout::all_fit(#[trigger] qs[i])
}

/// Number of entries of all queues.
spec fn total(qs: Seq<Pairs>) -> nat
    decreases qs.len(),
{
    if qs.len() == 0 {
        0
    } else {
        total(qs.drop_last()) + qs.last().len()
    }
}

/// Taking entries from some queues leaves fewer.
proof fn lemma_total_shrinks(a: Seq<Pairs>, b: Seq<Pairs>, w: int)
    requires
        a.len() == b.len(),
        0 <= w < a.len(),
        forall|i: int| 0 <= i < a.len() ==> (#[trigger] b[i]).len() <= a[i].len(),
        b[w].len() < a[w].len(),
    ensures
        total(b) < total(a),
    decreases a.len(),
{
    let x = a.drop_last();
    let y = b.drop_last();
    assert forall|i: int| 0 <= i < x.len() implies (#[trigger] y[i]).len() <= x[i].len() by {
        assert(b[i].len() <= a[i].len());
    }
    assert(b[b.len() - 1].len() <= a[a.len() - 1].len());
    if w == a.len() - 1 {
        lemma_total_grows_not(x, y);
    } else {
        lemma_total_shrinks(x, y, w);
    }
}

proof fn lemma_total_grows_not(a: Seq<Pairs>, b: Seq<Pairs>)
    requires
        a.len() == b.len(),
        forall|i: int| 0 <= i < a.len() ==> (#[trigger] b[i]).len() <= a[i].len(),
    ensures
        total(b) <= total(a),
    decreases a.len(),
{
    if a.len() > 0 {
        let x = a.drop_last();
        let y = b.drop_last();
        assert forall|i: int| 0 <= i < x.len() implies (#[trigger] y[i]).len() <= x[i].len() by {
            assert(b[i].len() <= a[i].len());
        }
        assert(b[b.len() - 1].len() <= a[a.len() - 1].len());
        lemma_total_grows_not(x, y);
    }
}

/// `out` is the merge of the queues `all`: each key that some queue holds,
/// with the entry of the newest.
pub open spec fn is_merge(out: Pairs, all: Seq<Pairs>, seqs: Seq<u64>) -> bool {
    &&& assoc::sorted_pairs(out)
    &&& forall|k: Seq<u8>| #[trigger] assoc::has_key(out, k) == merge::some_holds(all, k)
    &&& forall|k: Seq<u8>| #[trigger]
        assoc::has_key(out, k) ==> merge::is_newest(all, seqs, k, assoc::find(out, k)->0)
}

/// Of the first `n` queues, `w` has the smallest head, and of those with its
/// key the newest.
spec fn leads(qs: Seq<Pairs>, seqs: Seq<u64>, n: int, w: int) -> bool {
    &&& 0 <= w < n
    &&& qs[w].len() > 0
    &&& forall|j: int|
        0 <= j < n && (#[trigger] qs[j]).len() > 0 ==> {
            &&& order::key_less_eq(qs[w][0].0, qs[j][0].0)
            &&& qs[j][0].0 == qs[w][0].0 ==> seqs[j] <= seqs[w]
        }
}

/// If a queue has entries, one of them comes next.
proof fn lemma_leader(qs: Seq<Pairs>, seqs: Seq<u64>, n: int)
    requires
        0 <= n <= qs.len(),
        exists|i: int| 0 <= i < n && (#[trigger] qs[i]).len() > 0,
    ensures
        exists|w: int| leads(qs, seqs, n, w),
    decreases n,
{
    let last = n - 1;
    if exists|i: int| 0 <= i < last && (#[trigger] qs[i]).len() > 0 {
        lemma_leader(qs, seqs, last);
        let w = choose|w: int| leads(qs, seqs, last, w);
        if qs[last].len() == 0 {
            assert(leads(qs, seqs, n, w));
        } else {
            let a = qs[w][0].0;
            let b = qs[last][0].0;
            order::lemma_key_total(a, b);
            if order::key_less(a, b) || (a == b && seqs[last] <= seqs[w]) {
                assert(leads(qs, seqs, n, w));
            } else {
                assert forall|j: int| 0 <= j < n && (#[trigger] qs[j]).len() > 0 implies {
                    &&& order::key_less_eq(b, qs[j][0].0)
                    &&& qs[j][0].0 == b ==> seqs[j] <= seqs[last]
                } by {
                    if j < last {
                        let c = qs[j][0].0;
                        assert(order::key_less_eq(a, c));
                        if order::key_less(b, a) {
                            if order::key_less(a, c) {
                                order::lemma_key_transitive(b, a, c);
                            }
                            order::lemma_key_irreflexive(b);
                        }
                    }
                }
                assert(leads(qs, seqs, n, last));
            }
        }
    } else {
        assert(qs[last].len() > 0) by {
            let i = choose|i: int| 0 <= i < n && (#[trigger] qs[i]).len() > 0;
            assert(i == last);
        }
        assert(leads(qs, seqs, n, last));
    }
}

/// What has been merged so far is the start of a merge.
proof fn lemma_merge_exists(out: Pairs, qs: Seq<Pairs>, all: Seq<Pairs>, seqs: Seq<u64>)
    requires
        merge::merged(out, qs, all, seqs),
    ensures
        exists|full: Pairs| #[trigger] is_merge(full, all, seqs) && out.is_prefix_of(full),
    decreases total(qs),
{
    if merge::all_empty(qs) {
        assert forall|k: Seq<u8>| #[trigger] assoc::has_key(out, k) == merge::some_holds(
            all,
            k,
        ) by {
            merge::lemma_merge_done(out, qs, all, seqs, k);
        }
        assert forall|k: Seq<u8>| #[trigger] assoc::has_key(out, k) implies merge::is_newest(
            all,
            seqs,
            k,
            assoc::find(out, k)->0,
        ) by {
            merge::lemma_merge_done(out, qs, all, seqs, k);
        }
        assert(is_merge(out, all, seqs));
        assert(out.subrange(0, out.len() as int) =~= out);
    } else {
        lemma_leader(qs, seqs, qs.len() as int);
        let w = choose|w: int| leads(qs, seqs, qs.len() as int, w);
        assert(merge::wins(qs, seqs, w));
        let top = qs[w][0];
        let next = qs.map_values(|q: Pairs| merge::without(q, top.0));
        merge::lemma_merge_step(out, qs, all, seqs, w, next);
        assert forall|i: int| 0 <= i < qs.len() implies (#[trigger] next[i]).len()
            <= qs[i].len() by {}
        assert(next[w] == merge::without(qs[w], top.0));
        lemma_total_shrinks(qs, next, w);
        let grown = out.push(top);
        lemma_merge_exists(grown, next, all, seqs);
        let full = choose|full: Pairs| #[trigger]
            is_merge(full, all, seqs) && grown.is_prefix_of(full);
        assert(out.is_prefix_of(full)) by {
            assert(full.subrange(0, grown.len() as int) == grown);
            assert(full.subrange(0, out.len() as int) =~= out) by {
                assert forall|i: int| 0 <= i < out.len() implies full[i] == out[i] by {
                    assert(full.subrange(0, grown.len() as int)[i] == grown[i]);
                }
            }
        }
        assert(is_merge(full, all, seqs));
    }
}

/// Without tombstones, a start stays a start.
proof fn lemma_start_without_tombstones(a: Pairs, b: Pairs)
    requires
        a.is_prefix_of(b),
    ensures
        state::without_tombstones(a).is_prefix_of(state::without_tombstones(b)),
    decreases b.len(),
{
    let x = state::without_tombstones(a);
    let y = state::without_tombstones(b);
    assert(b.subrange(0, a.len() as int) == a);
    if a.len() == b.len() {
        assert(a =~= b);
        assert(y.subrange(0, x.len() as int) =~= x);
    } else {
        let d = b.drop_last();
        assert(d.subrange(0, a.len() as int) =~= a);
        lemma_start_without_tombstones(a, d);
        let z = state::without_tombstones(d);
        assert(z.subrange(0, x.len() as int) == x);
        assert(y.subrange(0, x.len() as int) =~= x) by {
            assert forall|i: int| 0 <= i < x.len() implies y[i] == x[i] by {
                assert(z.subrange(0, x.len() as int)[i] == x[i]);
            }
        }
    }
}

/// The merge of the queues `all` cannot be written: a key is empty, or the
/// table would not fit in memory.
pub open spec fn cannot_merge(all: Seq<Pairs>, seqs: Seq<u64>, keys: int, bits: int) -> bool {
    ||| merge::some_holds(all, Seq::empty())
    ||| exists|out: Pairs| #[trigger]
        is_merge(out, all, seqs) && writer::too_long(state::without_tombstones(out), keys, bits)
}

/// Some source has an error.
pub open spec fn some_fails(sources: Seq<MergeSource>) -> bool {
    exists|i: int| 0 <= i < sources.len() && merge::fails((#[trigger] sources[i]).iter.rest())
}

/// An entry that is refused while nothing has failed cannot be written.
proof fn lemma_refused(
    w: SsTableWriter,
    out: Pairs,
    top: (Seq<u8>, EntryView),
    qs: Seq<Pairs>,
    all: Seq<Pairs>,
    seqs: Seq<u64>,
    keys: int,
    bits: int,
)
    requires
        w.pairs() == state::without_tombstones(out),
        merge::merged(out.push(top), qs, all, seqs),
        !(top.1 is Tombstone),
        w.refuses(top.0, top.1),
        writer::sized_for(w.filter(), keys, bits),
    ensures
        cannot_merge(all, seqs, keys, bits),
{
    let grown = out.push(top);
    let wt = state::without_tombstones(grown);
    assert(grown.drop_last() =~= out);
    assert(wt =~= w.pairs().push(top));
    assoc::lemma_find_at(grown, out.len() as int);
    assert(assoc::has_key(grown, top.0));
    if top.0.len() == 0 {
        assert(top.0 =~= Seq::<u8>::empty());
        assert(assoc::find(grown, top.0) is Some);
        let e = assoc::find(grown, top.0)->0;
        assert(merge::is_newest(all, seqs, top.0, e));
        let i = choose|i: int|
            0 <= i < all.len() && assoc::find(#[trigger] all[i], top.0) == Some(e) && forall|j: int|
                0 <= j < all.len() && assoc::has_key(#[trigger] all[j], top.0) ==> seqs[j]
                    <= seqs[i];
        assert(assoc::has_key(all[i], top.0));
    } else {
        state::lemma_without_tombstones(grown, top.0);
        if w.pairs().len() > 0 {
            assert(order::key_less(wt[wt.len() - 2].0, wt[wt.len() - 1].0));
        }
        assert(writer::flushed_len(wt) > u64::MAX);
        lemma_merge_exists(grown, qs, all, seqs);
        let full = choose|full: Pairs| #[trigger]
            is_merge(full, all, seqs) && grown.is_prefix_of(full);
        lemma_start_without_tombstones(grown, full);
        let s = state::without_tombstones(full);
        assert(s.subrange(0, wt.len() as int) == wt);
        assert(s.take(wt.len() as int) =~= wt);
        writer::lemma_refused_is_long(s, wt.len() as int, w.filter(), keys, bits);
    }
}

/// Merges `sources` into the file `name`, without the tombstones. The table
/// is not finished. Also returns whether anything was written.
fn merge_into<I: Io>(
    io: &mut I,
    name: &[u8],
    sources: Vec<MergeSource>,
    expected_keys: usize,
    bits: u32,
) -> (r: Result<(SsTableWriter, bool)>)
    requires
        merge::all_sorted(merge::queues_of(sources@)),
        queues_fit(merge::queues_of(sources@)),
    ensures
        writer::only_changes(old(io).files(), name@, final(io).files()),
        final(io).is_reliable() == old(io).is_reliable(),
        r matches Err(e) ==> {
            &&& e is Io || e is InvalidArgument || merge::some_error(sources@, e)
            &&& old(io).is_reliable() ==> {
                ||| some_fails(sources@)
                ||| old(io).files().contains_key(name@) && old(io).files()[name@].len() > 0
                ||| cannot_merge(
                    merge::queues_of(sources@),
                    merge::sequences_of(sources@),
                    expected_keys as int,
                    bits as int,
                )
            }
        },
        r matches Ok((w, wrote)) ==> {
            &&& writer::sized_for(w.filter(), expected_keys as int, bits as int)
            &&& w.wf()
            &&& w.file_name() == name@
            &&& w.in_step(final(io).files())
            &&& wrote == (w.pairs().len() > 0)
            &&& forall|i: int|
                0 <= i < sources@.len() ==> !merge::fails((#[trigger] sources@[i]).iter.rest())
            &&& exists|out: Pairs|
                w.pairs() == state::without_tombstones(out) && #[trigger] is_merge(
                    out,
                    merge::queues_of(sources@),
                    merge::sequences_of(sources@),
                )
        },
        forall|o: Seq<u8>|
            o != name@ && old(io).is_synced(o) ==> #[trigger] final(io).is_synced(o),
        forall|o: Seq<u8>|
            o != name@ && old(io).is_linked(o) ==> #[trigger] final(io).is_linked(o),
{
    let ghost files = io.files();
    let ghost all = merge::queues_of(sources@);
    let ghost seqs = merge::sequences_of(sources@);
    let mut m = match MergingIterator::new(sources) {
        Ok(m) => m,
        Err(e) => {
            proof {
                let i = choose|i: int|
                    0 <= i < sources@.len() && (#[trigger] sources@[i]).iter.rest().len() > 0
                        && sources@[i].iter.rest()[0] == Err::<(Vec<u8>, Entry), Error>(e);
                assert(merge::error_in(sources@[i].iter.rest(), e));
                assert(merge::fails(sources@[i].iter.rest()));
            }
            return Err(e);
        },
    };
    let mut w = match SsTableWriter::create(io, name, expected_keys, bits) {
        Ok(w) => w,
        Err(e) => {
            return Err(e);
        },
    };
    let mut wrote_any: bool = false;
    let ghost mut out: Pairs = Seq::empty();
    proof {
        merge::lemma_merge_start(all, seqs);
        assert(w.pairs() =~= state::without_tombstones(out));
    }
    loop
        invariant
            m.wf(),
            m.seqs() == seqs,
            seqs.len() == all.len(),
            all.len() == sources@.len(),
            all == merge::queues_of(sources@),
            seqs == merge::sequences_of(sources@),
            m.queues().len() == all.len(),
            !m.is_poisoned(),
            forall|e: Error| #[trigger] m.may_report(e) ==> merge::some_error(sources@, e),
            m.pending() matches Some(e) ==> merge::some_error(sources@, e),
            !m.failed() ==> {
                &&& merge::merged(out, m.queues(), all, seqs)
                &&& queues_fit(m.queues())
                &&& forall|i: int|
                    0 <= i < all.len() ==> #[trigger] m.will_fail(i) == merge::fails(
                        sources@[i].iter.rest(),
                    )
            },
            w.wf(),
            w.file_name() == name@,
            w.in_step(io.files()),
            w.pairs() == state::without_tombstones(out),
            writer::sized_for(w.filter(), expected_keys as int, bits as int),
            io.is_reliable() == old(io).is_reliable(),
            m.failed() ==> some_fails(sources@),
            wrote_any == (w.pairs().len() > 0),
            files == old(io).files(),
            writer::only_changes(files, name@, io.files()),
            forall|o: Seq<u8>| o != name@ && old(io).is_synced(o) ==> #[trigger] io.is_synced(o),
            forall|o: Seq<u8>| o != name@ && old(io).is_linked(o) ==> #[trigger] io.is_linked(o),
        ensures
            !m.failed(),
            merge::all_empty(m.queues()),
        decreases
                if m.failed() {
                    0int
                } else {
                    1int
                },
                total(m.queues()),
    {
        let ghost before = m;
        let ghost qs = m.queues();
        let ghost now = io.files();
        match m.next() {
            None => {
                break ;
            },
            Some(Err(e)) => {
                proof {
                    lemma_error_fails(sources@, e);
                }
                return Err(e);
            },
            Some(Ok((key, entry))) => {
                let ghost top = (key@, entry@);
                proof {
                    if m.failed() {
                        lemma_error_fails(sources@, m.pending()->0);
                    }
                }
                let ghost grown = out.push(top);
                let ghost at = choose|w: int|
                    #[trigger] merge::wins(qs, seqs, w) && qs[w][0] == top;
                proof {
                    assert(merge::wins(qs, seqs, at));
                    assert(layout::all_fit(qs[at]));
                    assert(layout::entry_fits(qs[at][0].0, qs[at][0].1));
                    assert(grown.drop_last() =~= out);
                    if !m.failed() {
                        merge::lemma_merge_step(out, qs, all, seqs, at, m.queues());
                        lemma_fit_without(qs, top.0, m.queues());
                        assert(m.queues()[at] == merge::without(qs[at], top.0));
                        lemma_total_shrinks(qs, m.queues(), at);
                        assert forall|i: int| 0 <= i < all.len() implies #[trigger] m.will_fail(i)
                            == merge::fails(sources@[i].iter.rest()) by {
                            assert(m.queues()[i] == merge::without(qs[i], top.0));
                            assert(before.will_fail(i) == merge::fails(sources@[i].iter.rest()));
                        }
                    }
                }
                // Nothing lies below the bottom level: a tombstone has nothing
                // left to mask.
                if !matches!(entry, Entry::Tombstone) {
                    match w.add(io, key.as_slice(), &entry) {
                        Ok(_) => {},
                        Err(e) => {
                            proof {
                                lsm::lemma_changes_add_up(files, now, io.files(), name@);
                                if e is InvalidArgument && !m.failed() {
                                    lemma_refused(
                                        w,
                                        out,
                                        top,
                                        m.queues(),
                                        all,
                                        seqs,
                                        expected_keys as int,
                                        bits as int,
                                    );
                                }
                            }
                            return Err(e);
                        },
                    }
                    proof {
                        lsm::lemma_changes_add_up(files, now, io.files(), name@);
                    }
                    wrote_any = true;
                }
                proof {
                    out = grown;
                }
            },
        }
    }
    proof {
        assert forall|i: int| 0 <= i < sources@.len() implies !merge::fails(
            (#[trigger] sources@[i]).iter.rest(),
        ) by {
            m.lemma_drained(i);
            assert(!m.will_fail(i));
        }
        assert forall|k: Seq<u8>| #[trigger] assoc::has_key(out, k) == merge::some_holds(
            all,
            k,
        ) by {
            merge::lemma_merge_done(out, m.queues(), all, seqs, k);
        }
        assert forall|k: Seq<u8>| #[trigger] assoc::has_key(out, k) implies merge::is_newest(
            all,
            seqs,
            k,
            assoc::find(out, k)->0,
        ) by {
            merge::lemma_merge_done(out, m.queues(), all, seqs, k);
        }
        assert(is_merge(out, all, seqs));
    }
    Ok((w, wrote_any))
}

/// A source whose error is reported has an error.
proof fn lemma_error_fails(sources: Seq<MergeSource>, e: Error)
    requires
        merge::some_error(sources, e),
    ensures
        some_fails(sources),
{
    let i = choose|i: int|
        0 <= i < sources.len() && merge::error_in(#[trigger] sources[i].iter.rest(), e);
    let items = sources[i].iter.rest();
    let j = choose|j: int|
        0 <= j < items.len() && #[trigger] items[j] == Err::<(Vec<u8>, Entry), Error>(e);
    assert(items[j] is Err);
    assert(merge::fails(sources[i].iter.rest()));
}

proof fn lemma_fit_without(qs: Seq<Pairs>, k: Seq<u8>, next: Seq<Pairs>)
    requires
        queues_fit(qs),
        next.len() == qs.len(),
        forall|i: int| 0 <= i < qs.len() ==> #[trigger] next[i] == merge::without(qs[i], k),
    ensures
        queues_fit(next),
        forall|i: int| 0 <= i < qs.len() ==> (#[trigger] next[i]).len() <= qs[i].len(),
{
    assert forall|i: int| 0 <= i < next.len() implies layout::all_fit(#[trigger] next[i]) by {
        assert(layout::all_fit(qs[i]));
        assert(next[i] == merge::without(qs[i], k));
    }
}

/// The table that source `j` reads: the bottom level comes first.
spec fn slot(levels: LevelState, j: int) -> int {
    let n0 = levels.refs0().len();
    let n1 = levels.refs1().len();
    if j < n1 {
        n0 + j
    } else {
        j - n1
    }
}

/// `s` reads table `i`.
spec fn sources_table(levels: LevelState, files: io::Files, i: int, s: MergeSource) -> bool {
    &&& s.sequence == levels.refs()[i].0
    &&& levels::reads(files[levels.refs()[i].1], s.iter.rest())
}

/// The tables as sources of a merge.
fn gather<I: Io>(io: &I, levels: &LevelState) -> (sources: Vec<MergeSource>)
    requires
        levels.open_in(io.files()),
    ensures
        sources@.len() == levels.refs().len(),
        forall|j: int|
            0 <= j < sources@.len() ==> sources_table(
                *levels,
                io.files(),
                slot(*levels, j),
                #[trigger] sources@[j],
            ),
        io.is_reliable() && levels.is_sound(io.files()) ==> !some_fails(sources@),
{
    let ghost n1 = levels.refs1().len();
    let mut sources: Vec<MergeSource> = Vec::new();
    let mut i: usize = 0;
    while i < levels.len1()
        invariant
            i <= levels.refs1().len(),
            levels.open_in(io.files()),
            sources@.len() == i,
            forall|j: int|
                0 <= j < sources@.len() ==> sources_table(
                    *levels,
                    io.files(),
                    slot(*levels, j),
                    #[trigger] sources@[j],
                ),
            io.is_reliable() && levels.is_sound(io.files()) ==> !some_fails(sources@),
        decreases levels.refs1().len() - i,
    {
        let ghost before = sources@;
        let entry = levels.entry1(i);
        let ghost at = levels.refs0().len() + i;
        assert(levels.refs()[at] == levels.refs1()[i as int]);
        let items = entry.read_all(io);
        sources.push(MergeSource { sequence: entry.id(), iter: SortedEntryIter::new(items) });
        proof {
            assert(sources@.drop_last() =~= before);
            lemma_none_fails(before, sources@);
        }
        i = i + 1;
    }
    let mut i: usize = 0;
    while i < levels.len0()
        invariant
            i <= levels.refs0().len(),
            n1 == levels.refs1().len(),
            levels.open_in(io.files()),
            sources@.len() == n1 + i,
            forall|j: int|
                0 <= j < sources@.len() ==> sources_table(
                    *levels,
                    io.files(),
                    slot(*levels, j),
                    #[trigger] sources@[j],
                ),
            io.is_reliable() && levels.is_sound(io.files()) ==> !some_fails(sources@),
        decreases levels.refs0().len() - i,
    {
        let ghost before = sources@;
        let entry = levels.entry0(i);
        assert(levels.refs()[i as int] == levels.refs0()[i as int]);
        let items = entry.read_all(io);
        sources.push(MergeSource { sequence: entry.id(), iter: SortedEntryIter::new(items) });
        proof {
            assert(sources@.drop_last() =~= before);
            lemma_none_fails(before, sources@);
        }
        i = i + 1;
    }
    sources
}

/// One more source without an error.
proof fn lemma_none_fails(before: Seq<MergeSource>, after: Seq<MergeSource>)
    requires
        after.len() == before.len() + 1,
        after.drop_last() == before,
    ensures
        !some_fails(before) && !merge::fails(after.last().iter.rest()) ==> !some_fails(after),
{
    if some_fails(after) {
        let i = choose|i: int|
            0 <= i < after.len() && merge::fails((#[trigger] after[i]).iter.rest());
        if i < before.len() {
            assert(before[i] == after[i]);
        }
    }
}

/// Number of data blocks of the first `n` tables.
pub open spec fn block_total(levels: LevelState, n: int) -> int
    decreases n,
{
    if n <= 0 {
        0
    } else {
        block_total(levels, n - 1) + levels.loaded(n - 1).index.len()
    }
}

/// `n`, held at the largest `usize`.
pub open spec fn held(n: int) -> int {
    if n > usize::MAX {
        usize::MAX as int
    } else {
        n
    }
}

/// `a + b`, held at the largest `usize`, where `b` is 256 for each block.
fn add_blocks(a: usize, blocks: usize) -> (n: usize)
    ensures
        n == (if a + 256 * blocks > usize::MAX {
            usize::MAX as int
        } else {
            a + 256 * blocks
        }),
{
    if blocks > usize::MAX / 256 {
        return usize::MAX;
    }
    a.saturating_add(blocks * 256)
}

/// A rough count of the entries, 256 for each block: the filter is sized by
/// it.
fn expected_keys(levels: &LevelState) -> (n: usize)
    ensures
        n == held(256 * block_total(*levels, levels.refs().len() as int)),
{
    let mut n: usize = 0;
    let mut i: usize = 0;
    while i < levels.len0()
        invariant
            i <= levels.refs0().len(),
            n == held(256 * block_total(*levels, i as int)),
        decreases levels.refs0().len() - i,
    {
        n = add_blocks(n, levels.entry0(i).block_count());
        i = i + 1;
    }
    let mut i: usize = 0;
    while i < levels.len1()
        invariant
            i <= levels.refs1().len(),
            n == held(256 * block_total(*levels, levels.refs0().len() + i)),
        decreases levels.refs1().len() - i,
    {
        n = add_blocks(n, levels.entry1(i).block_count());
        i = i + 1;
    }
    n
}

/// The merge of all tables holds for each key what the newest table holds
/// for it.
#[verifier::spinoff_prover]
proof fn lemma_merge_of_tables(
    levels: LevelState,
    files: io::Files,
    sources: Seq<MergeSource>,
    out: Pairs,
    k: Seq<u8>,
)
    requires
        sources.len() == levels.refs().len(),
        forall|j: int|
            0 <= j < sources.len() ==> sources_table(
                levels,
                files,
                slot(levels, j),
                #[trigger] sources[j],
            ) && !merge::fails(sources[j].iter.rest()),
        forall|i: int, j: int|
            0 <= i < j < levels.refs().len() ==> (#[trigger] levels.refs()[i]).0 > (
            #[trigger] levels.refs()[j]).0,
        is_merge(out, merge::queues_of(sources), merge::sequences_of(sources)),
    ensures
        assoc::find(out, k) == state::newest(levels.tables(files), k),
{
    let all = merge::queues_of(sources);
    let seqs = merge::sequences_of(sources);
    let tables = levels.tables(files);
    let refs = levels.refs();
    let n0 = levels.refs0().len();
    let n1 = levels.refs1().len();
    assert forall|j: int| 0 <= j < all.len() implies {
        let i = slot(levels, j);
        &&& 0 <= i < tables.len()
        &&& #[trigger] all[j] == tables[i]
        &&& seqs[j] == refs[i].0
    } by {
        assert(sources_table(levels, files, slot(levels, j), sources[j]));
    }
    state::lemma_newest_at(tables, k);
    assert(assoc::has_key(out, k) == merge::some_holds(all, k));
    match state::newest(tables, k) {
        None => {
            if merge::some_holds(all, k) {
                let j = choose|j: int| 0 <= j < all.len() && assoc::has_key(#[trigger] all[j], k);
                assert(assoc::has_key(tables[slot(levels, j)], k));
            }
        },
        Some(e) => {
            let i = choose|i: int|
                0 <= i < tables.len() && assoc::find(#[trigger] tables[i], k) == Some(e)
                    && forall|x: int| 0 <= x < i ==> !assoc::has_key(#[trigger] tables[x], k);
            let j = if i < n0 {
                n1 + i
            } else {
                i - n0
            };
            assert(slot(levels, j) == i);
            assert(all[j] == tables[i]);
            assert(assoc::has_key(all[j], k));
            assert forall|x: int| 0 <= x < all.len() && assoc::has_key(
                #[trigger] all[x],
                k,
            ) implies seqs[x] <= seqs[j] by {
                let y = slot(levels, x);
                assert(all[x] == tables[y]);
                if y > i {
                    assert(refs[i].0 > refs[y].0);
                }
            }
            assert(merge::is_newest(all, seqs, k, e));
            assert forall|x: int, y: int| 0 <= x < y < seqs.len() implies #[trigger] seqs[x]
                != #[trigger] seqs[y] by {
                let a = slot(levels, x);
                let b = slot(levels, y);
                assert(all[x] == tables[a]);
                assert(all[y] == tables[b]);
                if a < b {
                    assert(refs[a].0 > refs[b].0);
                } else {
                    assert(refs[b].0 > refs[a].0);
                }
            }
            merge::lemma_newest_unique(all, seqs, k, e, assoc::find(out, k)->0);
        },
    }
}

/// Removes the tables with the numbers `ids`, at whatever level they are, as
/// far as that works. A reliable backend removes all of them.
fn remove_tables<I: Io>(io: &mut I, ids: &Vec<u64>)
    ensures
        old(io).is_reliable() ==> forall|n: Seq<u8>|
            has_id(ids@, n) ==> !(#[trigger] final(io).files().contains_key(n)),
        final(io).is_reliable() == old(io).is_reliable(),
        forall|n: Seq<u8>| #[trigger]
            final(io).files().contains_key(n) ==> old(io).files().contains_key(n)
                && final(io).files()[n] == old(io).files()[n],
        forall|n: Seq<u8>| !has_id(ids@, n) ==> #[trigger] lsm::agree(
            old(io).files(),
            final(io).files(),
            n,
        ),
        forall|o: Seq<u8>|
            !has_id(ids@, o) && old(io).is_synced(o) ==> #[trigger] final(io).is_synced(o),
        forall|o: Seq<u8>|
            !has_id(ids@, o) && old(io).is_linked(o) ==> #[trigger] final(io).is_linked(o),
{
    let mut i: usize = 0;
    while i < ids.len()
        invariant
            i <= ids@.len(),
            old(io).is_reliable() ==> forall|n: Seq<u8>|
                has_id(ids@.take(i as int), n) ==> !(#[trigger] io.files().contains_key(n)),
            io.is_reliable() == old(io).is_reliable(),
            forall|n: Seq<u8>| #[trigger]
                io.files().contains_key(n) ==> old(io).files().contains_key(n) && io.files()[n]
                    == old(io).files()[n],
            forall|n: Seq<u8>| !has_id(ids@, n) ==> #[trigger] lsm::agree(
                old(io).files(),
                io.files(),
                n,
            ),
            forall|o: Seq<u8>|
                !has_id(ids@, o) && old(io).is_synced(o) ==> #[trigger] io.is_synced(o),
            forall|o: Seq<u8>|
                !has_id(ids@, o) && old(io).is_linked(o) ==> #[trigger] io.is_linked(o),
        decreases ids@.len() - i,
    {
        let top = sst_filename(0, ids[i]);
        let bottom = sst_filename(1, ids[i]);
        let ghost id = ids@[i as int];
        proof {
            assert(has_id(ids@, top@)) by {
                assert(top@ == names::sst_name(0, ids@[i as int]));
            }
            assert(has_id(ids@, bottom@)) by {
                assert(bottom@ == names::sst_name(1, ids@[i as int]));
            }
        }
        let ghost before = io.files();
        let _ignored = io.remove_file(top.as_slice());
        let ghost mid = io.files();
        let _ignored = io.remove_file(bottom.as_slice());
        proof {
            assert forall|n: Seq<u8>| !has_id(ids@, n) implies #[trigger] lsm::agree(
                old(io).files(),
                io.files(),
                n,
            ) by {
                assert(lsm::agree(old(io).files(), before, n));
            }
            assert forall|n: Seq<u8>| #[trigger] io.files().contains_key(n) implies old(
                io,
            ).files().contains_key(n) && io.files()[n] == old(io).files()[n] by {
                assert(before.contains_key(n));
            }
            assert forall|n: Seq<u8>| old(io).is_reliable() && has_id(
                ids@.take(i + 1),
                n,
            ) implies !(#[trigger] io.files().contains_key(n)) by {
                let (j, level) = choose|j: int, level: u8|
                    0 <= j < i + 1 && level <= 1 && n == #[trigger] names::sst_name(
                        level,
                        ids@.take(i + 1)[j],
                    );
                if j < i {
                    assert(n == names::sst_name(level, ids@.take(i as int)[j]));
                    assert(has_id(ids@.take(i as int), n));
                    assert(!before.contains_key(n));
                } else {
                    assert(n == top@ || n == bottom@);
                }
            }
        }
        i = i + 1;
    }
    assert(ids@.take(i as int) =~= ids@);
}

/// `n` is the name of a table with one of the numbers `ids`.
pub open spec fn has_id(ids: Seq<u64>, n: Seq<u8>) -> bool {
    exists|i: int, level: u8|
        0 <= i < ids.len() && level <= 1 && n == #[trigger] names::sst_name(level, ids[i])
}

/// The numbers of the tables.
fn table_ids(levels: &LevelState) -> (ids: Vec<u64>)
    ensures
        ids@.len() == levels.refs().len(),
        forall|j: int| 0 <= j < ids@.len() ==> #[trigger] ids@[j] == levels.refs()[j].0,
{
    let mut ids: Vec<u64> = Vec::new();
    let mut i: usize = 0;
    while i < levels.len0()
        invariant
            i <= levels.refs0().len(),
            ids@.len() == i,
            forall|j: int| 0 <= j < ids@.len() ==> #[trigger] ids@[j] == levels.refs()[j].0,
        decreases levels.refs0().len() - i,
    {
        ids.push(levels.entry0(i).id());
        i = i + 1;
    }
    let mut i: usize = 0;
    while i < levels.len1()
        invariant
            i <= levels.refs1().len(),
            ids@.len() == levels.refs0().len() + i,
            forall|j: int| 0 <= j < ids@.len() ==> #[trigger] ids@[j] == levels.refs()[j].0,
        decreases levels.refs1().len() - i,
    {
        ids.push(levels.entry1(i).id());
        i = i + 1;
    }
    ids
}

/// The files of the tables.
fn table_files(levels: &LevelState) -> (files: Vec<Vec<u8>>)
    ensures
        files@.len() == levels.refs().len(),
        forall|j: int| 0 <= j < files@.len() ==> (#[trigger] files@[j])@ == levels.refs()[j].1,
{
    let mut files: Vec<Vec<u8>> = Vec::new();
    let mut i: usize = 0;
    while i < levels.len0()
        invariant
            i <= levels.refs0().len(),
            files@.len() == i,
            forall|j: int| 0 <= j < files@.len() ==> (#[trigger] files@[j])@ == levels.refs()[j].1,
        decreases levels.refs0().len() - i,
    {
        files.push(levels.entry0(i).file());
        i = i + 1;
    }
    let mut i: usize = 0;
    while i < levels.len1()
        invariant
            i <= levels.refs1().len(),
            files@.len() == levels.refs0().len() + i,
            forall|j: int| 0 <= j < files@.len() ==> (#[trigger] files@[j])@ == levels.refs()[j].1,
        decreases levels.refs1().len() - i,
    {
        files.push(levels.entry1(i).file());
        i = i + 1;
    }
    files
}

/// No file is a table at one of the two levels.
pub open spec fn has_no_tables(files: io::Files) -> bool {
    forall|n: Seq<u8>, level: u8, id: u64| #[trigger]
        state::is_sst(files, n, level, id) ==> level >= 2
}

/// No file but `name` is a table at one of the two levels.
pub open spec fn only_table(files: io::Files, name: Seq<u8>) -> bool {
    forall|n: Seq<u8>, level: u8, id: u64| #[trigger]
        state::is_sst(files, n, level, id) && level <= 1 ==> n == name
}

/// True if the directory `dir` holds no table but `name` at the two levels.
fn is_only_table<I: Io>(io: &I, dir: &str, name: &[u8]) -> (r: Result<bool>)
    ensures
        match r {
            Ok(only) => only == only_table(io.files(), name@),
            Err(e) => e is Io && !io.is_reliable(),
        },
{
    let listed = match io.list_dir(dir) {
        Ok(l) => l,
        Err(e) => {
            return Err(e);
        },
    };
    let mut i: usize = 0;
    while i < listed.len()
        invariant
            i <= listed@.len(),
            io::lists(listed@, io.files()),
            forall|j: int|
                0 <= j < i ==> (names::parse_sst((#[trigger] listed@[j])@) matches Some(p) && p.0 <= 1
                    ==> listed@[j]@ == name@),
        decreases listed@.len() - i,
    {
        let file = listed[i].as_slice();
        if let Some((level, id)) = parse_sst_filename(file) {
            if level <= 1 && !same_bytes(file, name) {
                proof {
                    assert(state::is_sst(io.files(), file@, level, id));
                }
                return Ok(false);
            }
        }
        i = i + 1;
    }
    proof {
        assert forall|n: Seq<u8>, level: u8, id: u64| #[trigger]
            state::is_sst(io.files(), n, level, id) && level <= 1 implies n == name@ by {
            let j = choose|j: int| 0 <= j < listed@.len() && (#[trigger] listed@[j])@ == n;
            assert(names::parse_sst(listed@[j]@) == Some((level, id)));
        }
    }
    Ok(true)
}

impl EngineInner {
    /// `n` is the file of one of the tables.
    pub open spec fn is_table_file(&self, n: Seq<u8>) -> bool {
        exists|i: int| 0 <= i < self.refs().len() && (#[trigger] self.refs()[i]).1 == n
    }

    /// `n` is the file of one of the tables, or has the name that a table with
    /// its number has at either level.
    pub open spec fn is_input(&self, n: Seq<u8>) -> bool {
        ||| self.is_table_file(n)
        ||| exists|i: int, level: u8|
            0 <= i < self.refs().len() && level <= 1 && n == #[trigger] names::sst_name(
                level,
                self.refs()[i].0,
            )
    }

    /// The files of the tables are gone.
    pub open spec fn tables_gone(&self, files: io::Files) -> bool {
        forall|i: int|
            0 <= i < self.refs().len() ==> !files.contains_key((#[trigger] self.refs()[i]).1)
    }

    /// Every table has an entry.
    pub open spec fn has_no_empty_table(&self, files: io::Files) -> bool {
        forall|i: int|
            0 <= i < self.refs().len() ==> state::pairs_in(
                files[(#[trigger] self.refs()[i]).1],
            ).len() > 0
    }

    /// The files that a compaction writes.
    pub open spec fn compact_writes(&self, n: Seq<u8>) -> bool {
        let sst = names::sst_name(1, self.next_id());
        n == sst || n == names::tmp_name(sst)
    }

    /// For each key, `s` holds what the tables hold for it; nothing if that is
    /// a tombstone.
    pub open spec fn merges_to(&self, files: io::Files, s: Pairs) -> bool {
        self.is_ordered() ==> forall|k: Seq<u8>| #[trigger]
            assoc::find(s, k) == state::unmasked(state::newest(self.levels().tables(files), k))
    }

    /// The table of a compaction of `self`, with its files in `files`, is in
    /// `files_after`.
    pub open spec fn compact_is_in(&self, files: io::Files, files_after: io::Files) -> bool {
        let sst = names::sst_name(1, self.next_id());
        &&& files_after.contains_key(sst)
        &&& state::is_sound(files_after[sst])
        &&& self.merges_to(files, state::pairs_in(files_after[sst]))
    }

    /// The table of a compaction of `self`, if there is one in `after`, has a
    /// filter for 256 keys in each block of the old tables.
    pub open spec fn compact_is_filtered(
        &self,
        after: &EngineInner,
        files_after: io::Files,
        bits: u32,
    ) -> bool {
        after.refs().len() > 0 ==> state::is_filtered(
            files_after[names::sst_name(1, self.next_id())],
            held(256 * block_total(self.levels(), self.refs().len() as int)),
            bits as int,
        )
    }

    /// A compaction of `self` gives `after`: there is one table, or none, and
    /// none in the files, if nothing but tombstones were left. Of the old tables
    /// some may not have been removed; then there is one, though it be empty.
    pub open spec fn compacts_to(
        &self,
        files: io::Files,
        after: &EngineInner,
        files_after: io::Files,
    ) -> bool {
        let id = self.next_id();
        let sst = names::sst_name(1, id);
        &&& id < u64::MAX
        &&& after.next_id() == id + 1
        &&& after.mem() == self.mem()
        &&& after.mem_size() == self.mem_size()
        &&& after.levels().refs0().len() == 0
        &&& if after.levels().refs1().len() == 0 {
            &&& self.merges_to(files, Seq::empty())
            &&& has_no_tables(files_after)
        } else {
            &&& after.levels().refs1() == seq![(id, sst)]
            &&& self.compact_is_in(files, files_after)
        }
        &&& forall|n: Seq<u8>|
            !self.compact_writes(n) && !self.is_input(n) ==> #[trigger] lsm::agree(
                files,
                files_after,
                n,
            )
        &&& forall|n: Seq<u8>| #[trigger]
            files_after.contains_key(n) && !self.compact_writes(n) ==> files.contains_key(n)
                && files_after[n] == files[n]
    }

    /// What keeps the tables from being compacted, even if the storage does
    /// not fail and no table has damage: the ids are used up, a temporary file
    /// is in the way, a table holds the empty key, or the new table would not
    /// fit in memory.
    pub open spec fn compact_is_blocked(&self, files: io::Files, bits: u32) -> bool {
        let tmp = names::tmp_name(names::sst_name(1, self.next_id()));
        ||| self.next_id() == u64::MAX
        ||| files.contains_key(tmp) && files[tmp].len() > 0
        ||| state::newest(self.levels().tables(files), Seq::empty()) is Some
        ||| exists|s: Pairs| #[trigger]
            self.merges_to(files, s) && assoc::sorted_pairs(s) && writer::too_long(
                s,
                held(256 * block_total(self.levels(), self.refs().len() as int)),
                bits as int,
            )
    }

    /// A compaction of `self` stopped: the tables are as they were. The new
    /// table may have appeared.
    pub open spec fn compact_stops(
        &self,
        files: io::Files,
        after: &EngineInner,
        files_after: io::Files,
    ) -> bool {
        &&& after.same(self)
        &&& forall|n: Seq<u8>|
            !self.compact_writes(n) ==> #[trigger] lsm::agree(files, files_after, n)
        &&& lsm::agree(files, files_after, names::sst_name(1, self.next_id()))
            || self.compact_is_in(files, files_after)
    }

    /// Compacts the levels if the top level has reached its size. If that
    /// stops, what it left is to be removed.
    pub(crate) fn maybe_compact<I: Io>(&mut self, io: &mut I, options: &Options) -> (r: Result<()>)
        requires
            old(self).wf(old(io).files()),
        ensures
            final(self).wf(final(io).files()),
            final(self).is_closed() == old(self).is_closed(),
            final(self).needs_log() == old(self).needs_log(),
            final(self).needs_sweep() == (r is Err || old(self).needs_sweep()),
            old(self).is_ordered() ==> final(self).is_ordered(),
            old(self).is_sound(old(io).files()) ==> final(self).is_sound(final(io).files()),
            old(self).is_ordered() ==> forall|k: Seq<u8>| #[trigger]
                final(self).value(final(io).files(), k) == old(self).value(old(io).files(), k),
            match r {
                Ok(_) => if old(self).levels().refs0().len() < options.l0_compaction_trigger {
                    &&& final(self).same(old(self))
                    &&& final(io).files() == old(io).files()
                } else {
                    &&& old(self).compacts_to(old(io).files(), final(self), final(io).files())
                    &&& old(io).is_reliable() ==> old(self).tables_gone(final(io).files())
                    &&& old(io).is_reliable() && old(self).is_clean(old(io).files())
                        ==> final(self).has_no_empty_table(final(io).files())
                    &&& old(self).compact_is_filtered(
                        final(self),
                        final(io).files(),
                        options.bloom_bits_per_key,
                    )
                },
                Err(e) => {
                    &&& !(e is Closed)
                    &&& old(self).levels().refs0().len() >= options.l0_compaction_trigger
                    &&& old(io).is_reliable() && old(self).is_sound(old(io).files()) ==> old(
                        self,
                    ).compact_is_blocked(old(io).files(), options.bloom_bits_per_key)
                    &&& old(self).compact_stops(old(io).files(), final(self), final(io).files())
                },
            },
            final(io).is_reliable() == old(io).is_reliable(),
            forall|o: Seq<u8>|
                !old(self).compact_writes(o) && (r is Err || old(self).levels().refs0().len()
                    < options.l0_compaction_trigger || !old(self).is_input(o)) && old(io).is_synced(o)
                    ==> #[trigger] final(io).is_synced(o),
            forall|o: Seq<u8>|
                !old(self).compact_writes(o) && (r is Err || old(self).levels().refs0().len()
                    < options.l0_compaction_trigger || !old(self).is_input(o)) && old(io).is_linked(o)
                    ==> #[trigger] final(io).is_linked(o),
            final(self).levels() != old(self).levels() ==> final(self).durable(final(io)),
    {
        if self.levels.len0() < options.l0_compaction_trigger {
            return Ok(());
        }
        match self.compact_l0_l1(io, options) {
            Ok(_) => Ok(()),
            Err(e) => {
                let ghost stopped = *self;
                self.leftover = true;
                proof {
                    self.lemma_same(&stopped, io.files());
                    assert forall|k: Seq<u8>| #[trigger] self.value(io.files(), k)
                        == stopped.value(io.files(), k) by {
                        assert(self.entry(io.files(), k) == stopped.entry(io.files(), k));
                    }
                }
                Err(e)
            },
        }
    }

    /// The files of the tables and their directory entries are on stable
    /// storage.
    pub open spec fn durable<I: Io>(&self, io: &I) -> bool {
        forall|i: int|
            0 <= i < self.refs().len() ==> io.is_synced((#[trigger] self.refs()[i]).1)
                && io.is_linked(self.refs()[i].1)
    }

    /// Merges all tables into one at the bottom level, without the tombstones.
    /// The old files are removed once the new one is registered, as far as that
    /// works. A reliable backend removes all of them. A table without entries
    /// is then removed too: until nothing older is left, it keeps what is from
    /// being found again.
    fn compact_l0_l1<I: Io>(&mut self, io: &mut I, options: &Options) -> (r: Result<()>)
        requires
            old(self).wf(old(io).files()),
        ensures
            final(self).wf(final(io).files()),
            final(self).is_closed() == old(self).is_closed(),
            final(self).needs_log() == old(self).needs_log(),
            final(self).needs_sweep() == old(self).needs_sweep(),
            old(self).is_ordered() ==> final(self).is_ordered(),
            old(self).is_sound(old(io).files()) ==> final(self).is_sound(final(io).files()),
            old(self).is_ordered() ==> forall|k: Seq<u8>| #[trigger]
                final(self).value(final(io).files(), k) == old(self).value(old(io).files(), k),
            match r {
                Ok(_) => {
                    &&& old(self).compacts_to(old(io).files(), final(self), final(io).files())
                    &&& old(io).is_reliable() ==> old(self).tables_gone(final(io).files())
                    &&& old(io).is_reliable() && old(self).is_clean(old(io).files())
                        ==> final(self).has_no_empty_table(final(io).files())
                    &&& old(self).compact_is_filtered(
                        final(self),
                        final(io).files(),
                        options.bloom_bits_per_key,
                    )
                },
                Err(e) => {
                    &&& !(e is Closed)
                    &&& old(io).is_reliable() && old(self).is_sound(old(io).files()) ==> old(
                        self,
                    ).compact_is_blocked(old(io).files(), options.bloom_bits_per_key)
                    &&& old(self).compact_stops(old(io).files(), final(self), final(io).files())
                },
            },
            final(io).is_reliable() == old(io).is_reliable(),
            forall|o: Seq<u8>|
                !old(self).compact_writes(o) && (r is Err || !old(self).is_input(o)) && old(
                    io,
                ).is_synced(o) ==> #[trigger] final(io).is_synced(o),
            forall|o: Seq<u8>|
                !old(self).compact_writes(o) && (r is Err || !old(self).is_input(o)) && old(
                    io,
                ).is_linked(o) ==> #[trigger] final(io).is_linked(o),
            final(self).levels() != old(self).levels() ==> final(self).durable(final(io)),
    {
        let ghost files = io.files();
        let ghost before = *self;
        let new_id = self.next_sst_id;
        if new_id == u64::MAX {
            return Err(invalid_argument("SSTable ids are used up"));
        }
        let input_ids = table_ids(&self.levels);
        let input_files = table_files(&self.levels);
        let sources = gather(io, &self.levels);
        let ghost from = sources@;
        let filename = sst_filename(1, new_id);
        let tmp = tmp_filename(filename.as_slice());
        let ghost sst = names::sst_name(1, new_id);
        proof {
            names::lemma_sst_name(1, new_id);
            names::lemma_tmp_name(sst);
            names::lemma_names_differ(1, new_id, sst);
            lemma_sources_ready(self.levels, files, from);
        }
        let expected = expected_keys(&self.levels);
        let (w, wrote_any) = match merge_into(
            io,
            tmp.as_slice(),
            sources,
            expected,
            options.bloom_bits_per_key,
        ) {
            Ok(p) => p,
            Err(e) => {
                proof {
                    if merge::some_error(from, e) {
                        let i = choose|i: int|
                            0 <= i < from.len() && merge::error_in(
                                #[trigger] from[i].iter.rest(),
                                e,
                            );
                        let items = from[i].iter.rest();
                        let j = choose|j: int|
                            0 <= j < items.len() && #[trigger] items[j] == Err::<
                                (Vec<u8>, Entry),
                                Error,
                            >(e);
                        assert(sources_table(before.levels(), files, slot(before.levels(), i), from[i]));
                        assert(items[j] is Err);
                    }
                    if cannot_merge(
                        merge::queues_of(from),
                        merge::sequences_of(from),
                        expected as int,
                        options.bloom_bits_per_key as int,
                    ) && !some_fails(from) {
                        lemma_blocked(before, files, from, options.bloom_bits_per_key);
                    }
                    lsm::lemma_others_agree(files, tmp@, io.files());
                    before.lemma_other_file(files, tmp@, io.files());
                    before.lemma_kept(files, io.files());
                }
                return Err(e);
            },
        };
        let ghost merged = w.pairs();
        let ghost mid = io.files();
        proof {
            lsm::lemma_others_agree(files, tmp@, mid);
            before.lemma_other_file(files, tmp@, mid);
            before.lemma_kept(files, mid);
            lemma_merges_to(before, files, from, merged);
            w.lemma_ascends();
        }
        let ghost done = w;
        match w.finish(io) {
            Ok(_) => {},
            Err(e) => {
                proof {
                    lsm::lemma_changes_add_up(files, mid, io.files(), tmp@);
                    lsm::lemma_others_agree(files, tmp@, io.files());
                    before.lemma_other_file(files, tmp@, io.files());
                    before.lemma_kept(files, io.files());
                }
                return Err(e);
            },
        }
        let ghost written = io.files();
        proof {
            lsm::lemma_changes_add_up(files, mid, written, tmp@);
            lsm::lemma_others_agree(files, tmp@, written);
            before.lemma_other_file(files, tmp@, written);
            before.lemma_kept(files, written);
            done.lemma_writable();
            state::lemma_written_is_sound(done.pairs(), done.filter());
        }
        match io.rename(tmp.as_slice(), filename.as_slice()) {
            Ok(_) => {},
            Err(e) => {
                return Err(e);
            },
        }
        let ghost renamed = io.files();
        proof {
            assert forall|o: Seq<u8>| !before.compact_writes(o) implies #[trigger] lsm::agree(
                files,
                renamed,
                o,
            ) by {
                assert(lsm::agree(files, written, o));
            }
            before.lemma_new_table(written, tmp@, sst, renamed);
            before.lemma_kept(written, renamed);
            assert(before.compact_is_in(files, renamed));
        }
        match io.sync_dir(options.path.as_str()) {
            Ok(_) => {},
            Err(e) => {
                return Err(e);
            },
        }
        let table = match SsTableEntry::open(io, new_id, filename.as_slice()) {
            Ok(t) => t,
            Err(e) => {
                return Err(e);
            },
        };
        self.next_sst_id = new_id + 1;
        self.levels.replace(Some(table));
        let ghost swapped = io.files();
        let ghost after = *self;
        proof {
            lemma_compacted(before, files, after, swapped);
            lemma_inputs(before, input_ids@, input_files@);
        }
        remove_tables(io, &input_ids);
        let ghost removed = io.files();
        remove_all(io, &input_files);
        proof {
            lemma_new_is_no_input(before, files, 1);
            assert(lsm::agree(swapped, removed, sst));
            assert(lsm::agree(swapped, io.files(), sst));
            assert forall|n: Seq<u8>| !before.is_input(n) implies #[trigger] lsm::agree(
                swapped,
                io.files(),
                n,
            ) by {
                assert(lsm::agree(swapped, removed, n));
            }
            assert forall|n: Seq<u8>| #[trigger] io.files().contains_key(
                n,
            ) implies swapped.contains_key(n) && io.files()[n] == swapped[n] by {
                assert(removed.contains_key(n));
            }
            assert forall|i: int|
                io.is_reliable() && 0 <= i < before.refs().len() implies !io.files().contains_key(
                (#[trigger] before.refs()[i]).1,
            ) by {
                assert(input_files@[i]@ == before.refs()[i].1);
                assert(discover::among(
                    input_files@,
                    input_files@.len() as int,
                    before.refs()[i].1,
                ));
            }
            after.levels().lemma_files(swapped);
            assert(after.refs() =~= after.levels().refs1());
            assert(after.tables_kept(swapped, io.files()));
            after.lemma_kept(swapped, io.files());
            lemma_after_removal(before, files, swapped, io.files());
            if before.is_ordered() {
                assert forall|k: Seq<u8>| #[trigger] after.value(io.files(), k) == before.value(
                    files,
                    k,
                ) by {
                    assert(after.entry(io.files(), k) == after.entry(swapped, k));
                    assert(after.value(swapped, k) == before.value(files, k));
                }
            }
        }
        let ghost gone = io.files();
        match io.sync_dir(options.path.as_str()) {
            Ok(_) => {},
            Err(_) => {
                return Ok(());
            },
        }
        if !wrote_any {
            self.drop_empty(io, options.path.as_str(), filename.as_slice());
            proof {
                if before.is_clean(files) && before.tables_gone(gone) {
                    lemma_only_table(before, files, gone);
                }
                if self.refs().len() == 0 {
                    assert(merged =~= Seq::empty());
                    lemma_compacted(before, files, *self, io.files());
                    lemma_dropped(before, files, gone);
                }
            }
        }
        proof {
            if self.refs().len() > 0 {
                assert(self.refs()[0] == (new_id, sst));
                assert(state::pairs_in(io.files()[sst]) == merged);
            }
        }
        Ok(())
    }

    /// Removes the table in the file `name`, which is the only one of the
    /// engine and has no entries, if no other table is left in the files.
    fn drop_empty<I: Io>(&mut self, io: &mut I, dir: &str, name: &[u8])
        requires
            old(self).refs().len() == 1,
        ensures
            final(self).mem() == old(self).mem(),
            final(self).mem_size() == old(self).mem_size(),
            final(self).next_id() == old(self).next_id(),
            final(self).is_closed() == old(self).is_closed(),
            final(self).log_name() == old(self).log_name(),
            final(self).needs_log() == old(self).needs_log(),
            final(self).needs_sweep() == old(self).needs_sweep(),
            if final(self).refs().len() > 0 {
                &&& *final(self) == *old(self)
                &&& final(io).files() == old(io).files()
                &&& old(io).is_reliable() && old(io).files().contains_key(name@) ==> !only_table(
                    old(io).files(),
                    name@,
                )
            } else {
                &&& final(self).levels().refs0().len() == 0
                &&& final(self).levels().refs1().len() == 0
                &&& final(self).levels().open_in(final(io).files())
                &&& only_table(old(io).files(), name@)
                &&& final(io).files() == old(io).files().remove(name@)
            },
            final(io).is_reliable() == old(io).is_reliable(),
            forall|o: Seq<u8>|
                (o != name@ || final(self).refs().len() > 0) && old(io).is_synced(o) ==>
                    #[trigger] final(io).is_synced(o),
            forall|o: Seq<u8>|
                (o != name@ || final(self).refs().len() > 0) && old(io).is_linked(o) ==>
                    #[trigger] final(io).is_linked(o),
    {
        match is_only_table(io, dir, name) {
            Ok(true) => {},
            _ => {
                return;
            },
        }
        match io.remove_file(name) {
            Ok(_) => {},
            Err(_) => {
                return;
            },
        }
        self.levels.replace(None);
        let _ignored = io.sync_dir(dir);
        proof {
            assert(self.refs() =~= Seq::empty());
        }
    }
}

/// If there were no other tables, and those are gone, the new one is the only
/// one.
proof fn lemma_only_table(before: EngineInner, files: io::Files, gone: io::Files)
    requires
        before.wf(files),
        before.is_clean(files),
        before.tables_gone(gone),
        forall|n: Seq<u8>| #[trigger]
            gone.contains_key(n) && !before.compact_writes(n) ==> files.contains_key(n),
    ensures
        only_table(gone, names::sst_name(1, before.next_id())),
{
    let sst = names::sst_name(1, before.next_id());
    names::lemma_tmp_name(sst);
    names::lemma_sst_name(1, before.next_id());
    assert(names::tmp_ext()[0] != names::sst_ext()[0]);
    assert forall|n: Seq<u8>, level: u8, id: u64| #[trigger]
        state::is_sst(gone, n, level, id) && level <= 1 implies n == sst by {
        if n != sst {
            assert(!before.compact_writes(n));
            assert(state::is_sst(files, n, level, id));
            let i = choose|i: int| 0 <= i < before.refs().len() && before.refs()[i] == (id, n);
            assert(!gone.contains_key(before.refs()[i].1));
        }
    }
}

/// Without the only table there is none.
proof fn lemma_dropped(before: EngineInner, files: io::Files, gone: io::Files)
    requires
        only_table(gone, names::sst_name(1, before.next_id())),
        forall|n: Seq<u8>|
            !before.compact_writes(n) && !before.is_input(n) ==> #[trigger] lsm::agree(
                files,
                gone,
                n,
            ),
    ensures
        has_no_tables(gone.remove(names::sst_name(1, before.next_id()))),
        forall|n: Seq<u8>|
            !before.compact_writes(n) && !before.is_input(n) ==> #[trigger] lsm::agree(
                files,
                gone.remove(names::sst_name(1, before.next_id())),
                n,
            ),
{
    let sst = names::sst_name(1, before.next_id());
    let f = gone.remove(sst);
    assert forall|n: Seq<u8>, level: u8, id: u64| #[trigger]
        state::is_sst(f, n, level, id) implies level >= 2 by {
        assert(state::is_sst(gone, n, level, id));
    }
    assert forall|n: Seq<u8>|
        !before.compact_writes(n) && !before.is_input(n) implies #[trigger] lsm::agree(
        files,
        f,
        n,
    ) by {
        assert(lsm::agree(files, gone, n));
    }
}

/// Why tables without damage cannot be merged.
proof fn lemma_blocked(
    before: EngineInner,
    files: io::Files,
    sources: Seq<MergeSource>,
    bits: u32,
)
    requires
        sources.len() == before.refs().len(),
        forall|j: int|
            0 <= j < sources.len() ==> sources_table(
                before.levels(),
                files,
                slot(before.levels(), j),
                #[trigger] sources[j],
            ),
        !some_fails(sources),
        cannot_merge(
            merge::queues_of(sources),
            merge::sequences_of(sources),
            held(256 * block_total(before.levels(), before.refs().len() as int)),
            bits as int,
        ),
    ensures
        before.compact_is_blocked(files, bits),
{
    let all = merge::queues_of(sources);
    let seqs = merge::sequences_of(sources);
    let tables = before.levels().tables(files);
    let keys = held(256 * block_total(before.levels(), before.refs().len() as int));
    let empty = Seq::<u8>::empty();
    assert forall|j: int| 0 <= j < sources.len() implies !merge::fails(
        (#[trigger] sources[j]).iter.rest(),
    ) by {}
    if merge::some_holds(all, empty) {
        let j = choose|j: int| 0 <= j < all.len() && assoc::has_key(#[trigger] all[j], empty);
        let i = slot(before.levels(), j);
        assert(sources_table(before.levels(), files, i, sources[j]));
        assert(all[j] == tables[i]);
        state::lemma_newest_at(tables, empty);
    } else {
        let out = choose|out: Pairs| #[trigger]
            is_merge(out, all, seqs) && writer::too_long(
                state::without_tombstones(out),
                keys,
                bits as int,
            );
        let s = state::without_tombstones(out);
        lemma_merges_to(before, files, sources, s);
        state::lemma_without_tombstones(out, empty);
        assert(before.merges_to(files, s));
    }
}

proof fn lemma_sources_ready(levels: LevelState, files: io::Files, sources: Seq<MergeSource>)
    requires
        sources.len() == levels.refs().len(),
        forall|j: int|
            0 <= j < sources.len() ==> sources_table(
                levels,
                files,
                slot(levels, j),
                #[trigger] sources[j],
            ),
    ensures
        merge::all_sorted(merge::queues_of(sources)),
        queues_fit(merge::queues_of(sources)),
{
    let qs = merge::queues_of(sources);
    assert forall|i: int| 0 <= i < qs.len() implies assoc::sorted_pairs(#[trigger] qs[i])
        && layout::all_fit(qs[i]) by {
        assert(sources_table(levels, files, slot(levels, i), sources[i]));
    }
}

proof fn lemma_merges_to(
    before: EngineInner,
    files: io::Files,
    sources: Seq<MergeSource>,
    merged: Pairs,
)
    requires
        sources.len() == before.refs().len(),
        forall|j: int|
            0 <= j < sources.len() ==> sources_table(
                before.levels(),
                files,
                slot(before.levels(), j),
                #[trigger] sources[j],
            ),
        forall|j: int|
            0 <= j < sources.len() ==> !merge::fails((#[trigger] sources[j]).iter.rest()),
        exists|out: Pairs|
            merged == state::without_tombstones(out) && #[trigger] is_merge(
                out,
                merge::queues_of(sources),
                merge::sequences_of(sources),
            ),
    ensures
        before.merges_to(files, merged),
{
    let out = choose|out: Pairs|
        merged == state::without_tombstones(out) && #[trigger] is_merge(
            out,
            merge::queues_of(sources),
            merge::sequences_of(sources),
        );
    if before.is_ordered() {
        assert forall|k: Seq<u8>| #[trigger] assoc::find(merged, k) == state::unmasked(
            state::newest(before.levels().tables(files), k),
        ) by {
            lemma_merge_of_tables(before.levels(), files, sources, out, k);
            state::lemma_without_tombstones(out, k);
        }
    }
}

/// Replacing the tables by their merge loses nothing.
pub(crate) proof fn lemma_compacted(
    before: EngineInner,
    files: io::Files,
    after: EngineInner,
    files_after: io::Files,
)
    requires
        before.wf(files),
        before.next_id() < u64::MAX,
        after.mem() == before.mem(),
        after.log_name() == before.log_name(),
        after.next_id() == before.next_id() + 1,
        after.levels().refs0().len() == 0,
        after.levels().open_in(files_after),
        if after.levels().refs1().len() == 0 {
            before.merges_to(files, Seq::empty())
        } else {
            &&& after.levels().refs1() == seq![
                (before.next_id(), names::sst_name(1, before.next_id())),
            ]
            &&& before.compact_is_in(files, files_after)
        },
    ensures
        after.wf(files_after),
        after.is_ordered(),
        after.is_sound(files_after),
        before.is_ordered() ==> forall|k: Seq<u8>| #[trigger]
            after.value(files_after, k) == before.value(files, k),
{
    let id = before.next_id();
    let sst = names::sst_name(1, id);
    names::lemma_sst_name(1, id);
    let t = after.levels().tables(files_after);
    assert(after.refs() =~= after.levels().refs1());
    assert forall|i: int| 0 <= i < after.refs().len() implies #[trigger] after.table_named(i) by {
        assert(after.refs()[i] == (id, sst));
    }
    assert forall|i: int| 0 <= i < after.refs().len() implies state::is_sound(
        files_after[(#[trigger] after.refs()[i]).1],
    ) by {
        assert(after.refs()[i] == (id, sst));
    }
    if before.is_ordered() {
        let pairs = if after.refs().len() == 0 {
            Seq::empty()
        } else {
            state::pairs_in(files_after[sst])
        };
        assert forall|k: Seq<u8>| #[trigger] after.value(files_after, k) == before.value(
            files,
            k,
        ) by {
            assert(assoc::find(pairs, k) == state::unmasked(
                state::newest(before.levels().tables(files), k),
            ));
            if after.refs().len() > 0 {
                assert(t =~= seq![pairs] + Seq::<Pairs>::empty());
                state::lemma_newest_front(pairs, Seq::empty(), k);
            } else {
                assert(t.len() == 0);
                assert(!assoc::has_key(pairs, k));
            }
        }
    }
}

proof fn lemma_inputs(before: EngineInner, ids: Seq<u64>, files: Seq<Vec<u8>>)
    requires
        ids.len() == before.refs().len(),
        forall|j: int| 0 <= j < ids.len() ==> #[trigger] ids[j] == before.refs()[j].0,
        files.len() == before.refs().len(),
        forall|j: int| 0 <= j < files.len() ==> (#[trigger] files[j])@ == before.refs()[j].1,
    ensures
        forall|n: Seq<u8>| #[trigger] has_id(ids, n) ==> before.is_input(n),
        forall|n: Seq<u8>| #[trigger]
            discover::among(files, files.len() as int, n) ==> before.is_input(n),
{
    assert forall|n: Seq<u8>| #[trigger] discover::among(
        files,
        files.len() as int,
        n,
    ) implies before.is_input(n) by {
        let j = choose|j: int| 0 <= j < files.len() && (#[trigger] files[j])@ == n;
        assert(before.refs()[j].1 == n);
    }
    assert forall|n: Seq<u8>| #[trigger] has_id(ids, n) implies before.is_input(n) by {
        let (i, level) = choose|i: int, level: u8|
            0 <= i < ids.len() && level <= 1 && n == #[trigger] names::sst_name(level, ids[i]);
        assert(n == names::sst_name(level, before.refs()[i].0));
    }
}

/// The next table has a number that no table has.
pub(crate) proof fn lemma_new_is_no_input(before: EngineInner, files: io::Files, level: u8)
    requires
        before.wf(files),
    ensures
        !before.is_input(names::sst_name(level, before.next_id())),
{
    let n = names::sst_name(level, before.next_id());
    if before.is_table_file(n) {
        let i = choose|i: int|
            0 <= i < before.refs().len() && (#[trigger] before.refs()[i]).1 == n;
        names::lemma_sst_name(level, before.next_id());
        assert(before.table_named(i));
    } else if before.is_input(n) {
        let (i, l) = choose|i: int, l: u8|
            0 <= i < before.refs().len() && l <= 1 && n == #[trigger] names::sst_name(
                l,
                before.refs()[i].0,
            );
        names::lemma_sst_names_differ(level, before.next_id(), l, before.refs()[i].0);
        assert(before.table_named(i));
    }
}

proof fn lemma_after_removal(
    before: EngineInner,
    files: io::Files,
    swapped: io::Files,
    after: io::Files,
)
    requires
        forall|n: Seq<u8>| !before.compact_writes(n) ==> #[trigger] lsm::agree(files, swapped, n),
        forall|n: Seq<u8>| #[trigger]
            after.contains_key(n) ==> swapped.contains_key(n) && after[n] == swapped[n],
        forall|n: Seq<u8>| !before.is_input(n) ==> #[trigger] lsm::agree(swapped, after, n),
    ensures
        forall|n: Seq<u8>|
            !before.compact_writes(n) && !before.is_input(n) ==> #[trigger] lsm::agree(
                files,
                after,
                n,
            ),
        forall|n: Seq<u8>| #[trigger]
            after.contains_key(n) && !before.compact_writes(n) ==> files.contains_key(n)
                && after[n] == files[n],
{
    assert forall|n: Seq<u8>|
        !before.compact_writes(n) && !before.is_input(n) implies #[trigger] lsm::agree(
        files,
        after,
        n,
    ) by {
        assert(lsm::agree(files, swapped, n));
        assert(lsm::agree(swapped, after, n));
    }
    assert forall|n: Seq<u8>| #[trigger]
        after.contains_key(n) && !before.compact_writes(n) implies files.contains_key(n)
        && after[n] == files[n] by {
        assert(lsm::agree(files, swapped, n));
    }
}

} // verus!
