//! Recovery of the vector index: from the entries that memtable and tables
//! hold, or from a snapshot and the entries that are newer.

use crate::assoc;
use crate::codec::copy_bytes;
use crate::engine::levels;
use crate::engine::lsm::EngineInner;
use crate::engine::state;
use crate::engine::state::TableRef;
use crate::engine::vector;
use crate::engine::vector::{decode_vector, VectorIndex};
use crate::error::{corruption, Error, Result};
use crate::hnsw::insert;
use crate::hnsw::math::VectorMath;
use crate::hnsw::DistanceMetric;
use crate::io;
use crate::io::Io;
use crate::keymap::KeyMap;
use crate::memtable::{Entry, EntryView, Memtable};
use crate::order;
use crate::sstable::layout;
use crate::sstable::layout::Pairs;
use crate::sstable::merge;
use crate::sstable::merge::{Item, SortedEntryIter};
use vstd::prelude::*;

verus! {

/// What the index holds for a key with the entry `e`: the embedding, as it is
/// stored.
pub open spec fn embedding<M: VectorMath>(
    math: &M,
    metric: DistanceMetric,
    e: Option<EntryView>,
) -> Option<Seq<u32>> {
    match e {
        Some(EntryView::Vector(b)) => insert::prepared(math, metric, vector::components(b)),
        _ => None,
    }
}

/// The embedding `b` cannot be taken into `index`: it is no sequence of whole
/// components, has another dimension, or the graph refuses it.
pub open spec fn is_unfit<M: VectorMath>(math: &M, index: VectorIndex, b: Seq<u8>) -> bool {
    ||| b.len() % 4 != 0
    ||| index.dim() matches Some(d) && d != b.len() / 4
    ||| index.graph().refuses_vector(math, vector::components(b))
}

/// Inserts the embedding `bytes` of `key`, which is not in the index.
fn insert_into_index<M: VectorMath>(
    index: &mut VectorIndex,
    math: &M,
    key: Vec<u8>,
    bytes: &[u8],
) -> (r: Result<()>)
    requires
        old(index).wf(),
        math.ready(),
        old(index).node_of(key@) is None,
    ensures
        final(index).wf(),
        final(index).graph().spec_params() == old(index).graph().spec_params(),
        match r {
            Ok(_) => {
                &&& !is_unfit(math, *old(index), bytes@)
                &&& final(index).indexed(key@) == embedding(
                    math,
                    old(index).graph().spec_params().metric,
                    Some(EntryView::Vector(bytes@)),
                )
                &&& final(index).dim() == Some((bytes@.len() / 4) as usize)
                &&& final(index).graph().spec_dim() == bytes@.len() / 4
                &&& final(index).graph().nodes().len() == old(index).graph().nodes().len() + 1
                &&& insert::inserts(
                    math,
                    old(index).graph(),
                    vector::components(bytes@),
                    final(index).graph(),
                )
                &&& old(index).rekeys(
                    key@,
                    Some(old(index).graph().nodes().len() as u32),
                    final(index),
                )
            },
            Err(e) => {
                &&& e is Corruption || e is InvalidArgument
                &&& is_unfit(math, *old(index), bytes@)
            },
        },
        forall|k: Seq<u8>|
            k != key@ ==> #[trigger] final(index).indexed(k) == old(index).indexed(k),
        old(index).is_storable() && 0 < key@.len() <= u32::MAX && bytes@.len() <= u32::MAX
            ==> final(index).is_storable(),
{
    let components = match decode_vector(bytes) {
        Ok(v) => v,
        Err(e) => {
            return Err(e);
        },
    };
    match index.expected_dim() {
        Some(d) => {
            if d != components.len() {
                return Err(corruption("vector entry dimension mismatch"));
            }
        },
        None => {},
    }
    let ghost before = *index;
    index.establish_dim(components.len());
    proof {
        vector::lemma_same_index(before, *index);
        assert(before.is_storable() ==> index.is_storable());
    }
    index.add_key(math, key, components.as_slice())
}

/// Takes one entry into the index, unless a newer source has decided over its
/// key.
fn apply_delta_entry<M: VectorMath>(
    index: &mut VectorIndex,
    seen: &mut KeyMap<bool>,
    math: &M,
    key: Vec<u8>,
    entry: &Entry,
) -> (r: Result<()>)
    requires
        old(index).wf(),
        old(seen).wf(),
        math.ready(),
    ensures
        final(index).wf(),
        final(seen).wf(),
        final(index).graph().spec_params() == old(index).graph().spec_params(),
        match r {
            Ok(_) => {
                &&& forall|k: Seq<u8>| #[trigger]
                    assoc::has_key(final(seen).pairs(), k) == (k == key@ || assoc::has_key(
                        old(seen).pairs(),
                        k,
                    ))
                &&& if assoc::has_key(old(seen).pairs(), key@) {
                    *final(index) == *old(index)
                } else {
                    &&& final(index).indexed(key@) == embedding(
                        math,
                        old(index).graph().spec_params().metric,
                        Some(entry@),
                    )
                    &&& takes_in(math, *old(index), key@, entry@, *final(index))
                }
                &&& if !assoc::has_key(old(seen).pairs(), key@) && entry@ is Vector {
                    &&& final(index).dim() == Some((entry@.payload().len() / 4) as usize)
                    &&& final(index).graph().spec_dim() == entry@.payload().len() / 4
                    &&& final(index).graph().nodes().len() == old(index).graph().nodes().len() + 1
                } else {
                    &&& final(index).dim() == old(index).dim()
                    &&& final(index).graph().spec_dim() == old(index).graph().spec_dim()
                    &&& final(index).graph().nodes().len() == old(index).graph().nodes().len()
                }
            },
            Err(e) => {
                &&& e is Corruption || e is InvalidArgument
                &&& !assoc::has_key(old(seen).pairs(), key@)
                &&& entry@ matches EntryView::Vector(b) && is_unfit(math, *old(index), b)
            },
        },
        forall|k: Seq<u8>|
            k != key@ ==> #[trigger] final(index).indexed(k) == old(index).indexed(k),
        old(index).is_storable() && key@.len() > 0 && layout::entry_fits(key@, entry@)
            ==> final(index).is_storable(),
{
    if seen.contains(key.as_slice()) {
        return Ok(());
    }
    let ghost before = seen.pairs();
    let _new = seen.insert(copy_bytes(key.as_slice()), true);
    proof {
        assert forall|k: Seq<u8>| #[trigger] assoc::has_key(seen.pairs(), k) == (k == key@
            || assoc::has_key(before, k)) by {
            assert(assoc::find(seen.pairs(), k) == (if k == key@ {
                Some(true)
            } else {
                assoc::find(before, k)
            }));
        }
    }
    match entry {
        Entry::Vector(bytes) => {
            // The dimension is checked before anything changes.
            if bytes.len() % 4 == 0 {
                match index.expected_dim() {
                    Some(d) => {
                        if d != bytes.len() / 4 {
                            return Err(corruption("delta vector dimension mismatch"));
                        }
                    },
                    None => {},
                }
            } else {
                return Err(corruption("vector byte length is not a multiple of 4"));
            }
            index.remove_key(math, key.as_slice());
            let ghost mid = *index;
            proof {
                assert(mid.indexed(key@) is None);
            }
            let r = insert_into_index(index, math, key, bytes.as_slice());
            proof {
                if r is Ok {
                    assert(old(index).drops(math, key@, mid.graph()));
                    assert(old(index).replaces(
                        math,
                        key@,
                        vector::components(bytes@),
                        index.graph(),
                    ));
                    assert(old(index).rekeys(
                        key@,
                        Some(old(index).graph().nodes().len() as u32),
                        index,
                    )) by {
                        assert forall|x: Seq<u8>| #[trigger] index.node_of(x) == (if x == key@ {
                            Some(old(index).graph().nodes().len() as u32)
                        } else {
                            old(index).node_of(x)
                        }) by {
                            assert(mid.node_of(x) == (if x == key@ {
                                None
                            } else {
                                old(index).node_of(x)
                            }));
                        }
                    }
                }
            }
            r
        },
        _ => {
            // The newest entry is no embedding: an older one no longer counts.
            index.remove_key(math, key.as_slice());
            Ok(())
        },
    }
}

/// Taking in the entry `e` of `k` turns the index `a` into `b`: an embedding
/// takes the place of the one that `k` has, anything else only removes it.
pub open spec fn takes_in<M: VectorMath>(
    math: &M,
    a: VectorIndex,
    k: Seq<u8>,
    e: EntryView,
    b: VectorIndex,
) -> bool {
    match e {
        EntryView::Vector(x) => {
            &&& a.replaces(math, k, vector::components(x), b.graph())
            &&& a.rekeys(k, Some(a.graph().nodes().len() as u32), &b)
        },
        _ => a.drops(math, k, b.graph()) && a.rekeys(k, None, &b),
    }
}

/// `index` has the graph and the keys that `start` has after `entries` were
/// taken in, in this order; of several entries of a key the first counts.
pub open spec fn built<M: VectorMath>(
    math: &M,
    start: VectorIndex,
    entries: Pairs,
    index: VectorIndex,
) -> bool
    decreases entries.len(),
{
    if entries.len() == 0 {
        index.graph() == start.graph() && index.keys() == start.keys()
    } else {
        exists|mid: VectorIndex|
            built(math, start, entries.drop_last(), mid) && #[trigger] takes_last(
                math,
                mid,
                entries,
                index,
            )
    }
}

/// The last of `entries` turns the index `a` into `b`, unless an entry before
/// it has its key.
pub open spec fn takes_last<M: VectorMath>(
    math: &M,
    a: VectorIndex,
    entries: Pairs,
    b: VectorIndex,
) -> bool {
    if assoc::has_key(entries.drop_last(), entries.last().0) {
        b == a
    } else {
        takes_in(math, a, entries.last().0, entries.last().1, b)
    }
}

/// The entries of all sources, one after the other.
pub open spec fn all_entries(sources: Seq<Pairs>) -> Pairs
    decreases sources.len(),
{
    if sources.len() == 0 {
        Seq::empty()
    } else {
        all_entries(sources.drop_last()) + sources.last()
    }
}

/// The keys of all entries are those that some source decides over.
proof fn lemma_all_entries(sources: Seq<Pairs>, k: Seq<u8>)
    ensures
        assoc::has_key(all_entries(sources), k) == state::newest(sources, k) is Some,
    decreases sources.len(),
{
    if sources.len() > 0 {
        let init = sources.drop_last();
        let last = sources.last();
        let none = Seq::<Pairs>::empty();
        lemma_all_entries(init, k);
        assert(sources =~= init + (seq![last] + none));
        state::lemma_newest_concat(init, seq![last] + none, k);
        state::lemma_newest_front(last, none, k);
        let a = all_entries(init);
        if assoc::has_key(a, k) {
            let i = choose|i: int| 0 <= i < a.len() && (#[trigger] a[i]).0 == k;
            assert((a + last)[i].0 == k);
        }
        if assoc::has_key(last, k) {
            let i = choose|i: int| 0 <= i < last.len() && (#[trigger] last[i]).0 == k;
            assert((a + last)[a.len() + i].0 == k);
        }
        if assoc::has_key(a + last, k) {
            let i = choose|i: int| 0 <= i < (a + last).len() && (#[trigger] (a + last)[i]).0 == k;
            if i < a.len() {
                assert(a[i].0 == k);
            } else {
                assert(last[i - a.len()].0 == k);
            }
        }
    }
}

/// All embeddings of `sources` have `d` components, and can be stored.
pub open spec fn uniform<M: VectorMath>(
    math: &M,
    metric: DistanceMetric,
    sources: Seq<Pairs>,
    d: int,
) -> bool {
    &&& 0 < d <= usize::MAX
    &&& forall|k: Seq<u8>| #[trigger]
        state::newest(sources, k) matches Some(EntryView::Vector(b)) ==> b.len() == 4 * d
            && insert::prepared(math, metric, vector::components(b)) is Some
}

/// `index` takes embeddings of `d` components.
pub open spec fn takes(index: VectorIndex, d: int) -> bool {
    &&& index.dim() matches Some(x) ==> x == d
    &&& index.graph().spec_dim() == 0 || index.graph().spec_dim() == d
}

/// Number of entries of all sources.
pub open spec fn entry_total(sources: Seq<Pairs>) -> nat
    decreases sources.len(),
{
    if sources.len() == 0 {
        0
    } else {
        entry_total(sources.drop_last()) + sources.last().len()
    }
}

/// The embeddings of `sources` can all be taken into `start`: they have one
/// dimension, which is that of the index, and there is room for them.
pub open spec fn all_welcome<M: VectorMath>(
    math: &M,
    start: VectorIndex,
    sources: Seq<Pairs>,
) -> bool {
    &&& exists|d: int|
        takes(start, d) && #[trigger] uniform(
            math,
            start.graph().spec_params().metric,
            sources,
            d,
        )
    &&& start.graph().nodes().len() + entry_total(sources) <= u32::MAX
}

/// `index` is `start` with the entries of `sources` taken in, the first of
/// which that holds a key decides; `seen` are the keys that they hold.
pub open spec fn is_applied<M: VectorMath>(
    math: &M,
    start: VectorIndex,
    sources: Seq<Pairs>,
    index: VectorIndex,
    seen: KeyMap<bool>,
) -> bool {
    &&& index.wf()
    &&& seen.wf()
    &&& index.graph().spec_params() == start.graph().spec_params()
    &&& forall|k: Seq<u8>| #[trigger]
        assoc::has_key(seen.pairs(), k) == state::newest(sources, k) is Some
    &&& index_is(math, start, sources, index)
    &&& start.is_storable() && state::newest(sources, Seq::empty()) is None
        ==> index.is_storable()
    &&& forall|d: int|
        takes(start, d) && #[trigger] uniform(
            math,
            start.graph().spec_params().metric,
            sources,
            d,
        ) ==> takes(index, d)
    &&& index.graph().nodes().len() <= start.graph().nodes().len() + entry_total(sources)
    &&& built(math, start, all_entries(sources), index)
}

/// `index` holds the embeddings of `sources`, and for keys that these do not
/// hold what `start` holds.
pub open spec fn index_is<M: VectorMath>(
    math: &M,
    start: VectorIndex,
    sources: Seq<Pairs>,
    index: VectorIndex,
) -> bool {
    forall|k: Seq<u8>| #[trigger]
        index.indexed(k) == match state::newest(sources, k) {
            Some(e) => embedding(math, start.graph().spec_params().metric, Some(e)),
            None => start.indexed(k),
        }
}

/// Takes the entries `items` into the index; an error among them is returned.
fn apply_all<M: VectorMath>(
    index: &mut VectorIndex,
    seen: &mut KeyMap<bool>,
    math: &M,
    items: Vec<Item>,
    Ghost(start): Ghost<VectorIndex>,
    Ghost(sources): Ghost<Seq<Pairs>>,
) -> (r: Result<()>)
    requires
        math.ready(),
        assoc::sorted_pairs(merge::good(items@)),
        layout::all_fit(merge::good(items@)),
        is_applied(math, start, sources, *old(index), *old(seen)),
    ensures
        match r {
            Ok(_) => {
                &&& !merge::fails(items@)
                &&& is_applied(
                    math,
                    start,
                    sources.push(merge::good(items@)),
                    *final(index),
                    *final(seen),
                )
            },
            Err(e) => (exists|i: int|
                0 <= i < items@.len() && #[trigger] items@[i] == Err::<(Vec<u8>, Entry), Error>(e))
                || ((e is Corruption || e is InvalidArgument) && !all_welcome(
                math,
                start,
                sources.push(merge::good(items@)),
            )),
        },
{
    let ghost all = merge::good(items@);
    let ghost given = items@;
    let mut from = SortedEntryIter::new(items);
    let ghost mut done: int = 0;
    proof {
        assert(all.take(0) =~= Seq::empty());
        assert(all.skip(0) =~= all);
        assert(given.skip(0) =~= given);
        lemma_push_empty(math, start, sources, *index, *seen);
    }
    loop
        invariant_except_break
            math.ready(),
            given == items@,
            assoc::sorted_pairs(all),
            layout::all_fit(all),
            all == merge::good(given),
            0 <= done <= all.len(),
            done <= given.len(),
            from.rest() == given.skip(done),
            merge::good(from.rest()) == all.skip(done),
            merge::fails(from.rest()) == merge::fails(given),
            is_applied(math, start, sources.push(all.take(done)), *index, *seen),
        ensures
            !merge::fails(given),
            is_applied(math, start, sources.push(all), *index, *seen),
        decreases given.len() - done,
    {
        let ghost rest = from.rest();
        match from.next() {
            None => {
                proof {
                    assert(all.take(done) =~= all) by {
                        assert(merge::good(rest).len() == 0);
                    }
                }
                break ;
            },
            Some(Err(e)) => {
                assert(given[done] == Err::<(Vec<u8>, Entry), Error>(e));
                return Err(e);
            },
            Some(Ok((key, entry))) => {
                let ghost top = (key@, entry@);
                let ghost prefix = all.take(done);
                let ghost before_index = *index;
                let ghost before_seen = *seen;
                proof {
                    assert(merge::good(rest) == seq![top] + merge::good(rest.skip(1)));
                    assert(merge::good(rest)[0] == top);
                    assert(all.skip(done).len() > 0);
                    assert(all.skip(done)[0] == all[done]);
                    assert(all[done] == top);
                    assert(merge::good(rest).skip(1) =~= merge::good(rest.skip(1)));
                    assert(all.skip(done).skip(1) =~= all.skip(done + 1));
                    assert(given.skip(done).skip(1) =~= given.skip(done + 1));
                    merge::lemma_fails_skip(rest);
                    assert(all.take(done + 1) =~= prefix.push(top));
                    lemma_key_is_next(all, done);
                }
                match apply_delta_entry(index, seen, math, key, &entry) {
                    Ok(_) => {},
                    Err(e) => {
                        proof {
                            lemma_reaches(sources, all, done);
                            assert(state::newest(sources.push(prefix), top.0) is None);
                            assert(state::newest(sources.push(all), top.0) == Some(entry@));
                            lemma_unwelcome(
                                math,
                                start,
                                sources,
                                prefix,
                                all,
                                before_index,
                                before_seen,
                                top,
                            );
                        }
                        return Err(e);
                    },
                }
                proof {
                    lemma_push_one(
                        math,
                        start,
                        sources,
                        prefix,
                        top,
                        before_index,
                        before_seen,
                        *index,
                        *seen,
                    );
                    done = done + 1;
                }
            },
        }
    }
    Ok(())
}

/// An embedding that cannot be taken in was not welcome.
proof fn lemma_unwelcome<M: VectorMath>(
    math: &M,
    start: VectorIndex,
    sources: Seq<Pairs>,
    prefix: Pairs,
    all: Pairs,
    index: VectorIndex,
    seen: KeyMap<bool>,
    top: (Seq<u8>, EntryView),
)
    requires
        is_applied(math, start, sources.push(prefix), index, seen),
        assoc::sorted_pairs(prefix),
        assoc::sorted_pairs(all),
        prefix.is_prefix_of(all),
        prefix.len() < all.len(),
        top.1 matches EntryView::Vector(b) && is_unfit(math, index, b),
        state::newest(sources.push(all), top.0) == Some(top.1),
    ensures
        !all_welcome(math, start, sources.push(all)),
{
    let metric = start.graph().spec_params().metric;
    let a = sources.push(prefix);
    let c = sources.push(all);
    if all_welcome(math, start, c) {
        let d = choose|d: int| takes(start, d) && #[trigger] uniform(math, metric, c, d);
        assert(uniform(math, metric, a, d)) by {
            assert forall|k: Seq<u8>| #[trigger]
                state::newest(a, k) matches Some(EntryView::Vector(b)) implies {
                let b = state::newest(a, k)->0->Vector_0;
                b.len() == 4 * d && insert::prepared(
                    math,
                    metric,
                    vector::components(b),
                ) is Some
            } by {
                lemma_cut_source(sources, prefix, all, k);
            }
        }
        assert(takes(index, d));
        assert(a.drop_last() =~= sources);
        assert(c.drop_last() =~= sources);
        let b = top.1->Vector_0;
        assert(b.len() == 4 * d);
        assert(vector::components(b).len() == d);
    }
}

/// The next key of a sorted sequence is not among the keys before it.
proof fn lemma_key_is_next(all: Pairs, done: int)
    requires
        assoc::sorted_pairs(all),
        0 <= done < all.len(),
    ensures
        assoc::sorted_pairs(all.take(done)),
        !assoc::has_key(all.take(done), all[done].0),
        done > 0 ==> order::key_less(all.take(done).last().0, all[done].0),
{
    let p = all.take(done);
    let k = all[done].0;
    assert forall|i: int, j: int| 0 <= i < j < p.len() implies order::key_less(
        #[trigger] p[i].0,
        #[trigger] p[j].0,
    ) by {
        assert(order::key_less(all[i].0, all[j].0));
    }
    if assoc::has_key(p, k) {
        let i = choose|i: int| 0 <= i < p.len() && (#[trigger] p[i]).0 == k;
        assert(order::key_less(all[i].0, all[done].0));
        order::lemma_key_irreflexive(k);
    }
    if done > 0 {
        assert(order::key_less(all[done - 1].0, all[done].0));
    }
}

/// A key that no source before holds is decided by the last one.
proof fn lemma_reaches(sources: Seq<Pairs>, all: Pairs, done: int)
    requires
        assoc::sorted_pairs(all),
        0 <= done < all.len(),
    ensures
        state::newest(sources.push(all.take(done)), all[done].0) is None ==> state::newest(
            sources.push(all),
            all[done].0,
        ) == Some(all[done].1),
{
    let k = all[done].0;
    let none = Seq::<Pairs>::empty();
    assert(sources.push(all) =~= sources + (seq![all] + none));
    assert(sources.push(all.take(done)) =~= sources + (seq![all.take(done)] + none));
    state::lemma_newest_concat(sources, seq![all] + none, k);
    state::lemma_newest_concat(sources, seq![all.take(done)] + none, k);
    state::lemma_newest_front(all, none, k);
    state::lemma_newest_front(all.take(done), none, k);
    assoc::lemma_find_at(all, done);
}

/// A source without entries adds nothing.
proof fn lemma_push_empty<M: VectorMath>(
    math: &M,
    start: VectorIndex,
    sources: Seq<Pairs>,
    index: VectorIndex,
    seen: KeyMap<bool>,
)
    requires
        is_applied(math, start, sources, index, seen),
    ensures
        is_applied(math, start, sources.push(Seq::empty()), index, seen),
{
    let none = Seq::<Pairs>::empty();
    let empty: Pairs = Seq::empty();
    let metric = start.graph().spec_params().metric;
    assert(sources.push(empty).drop_last() =~= sources);
    assert(all_entries(sources.push(empty)) =~= all_entries(sources));
    assert forall|k: Seq<u8>| #[trigger] state::newest(sources.push(empty), k) == state::newest(
        sources,
        k,
    ) by {
        assert(sources.push(empty) =~= sources + (seq![empty] + none));
        state::lemma_newest_concat(sources, seq![empty] + none, k);
        state::lemma_newest_front(empty, none, k);
        assert(!assoc::has_key(empty, k));
    }
    assert forall|k: Seq<u8>| #[trigger] assoc::has_key(seen.pairs(), k) == state::newest(
        sources.push(empty),
        k,
    ) is Some by {
        assert(state::newest(sources.push(empty), k) == state::newest(sources, k));
    }
    assert forall|d: int|
        takes(start, d) && #[trigger] uniform(
            math,
            metric,
            sources.push(empty),
            d,
        ) implies takes(index, d) by {
        assert(uniform(math, metric, sources, d)) by {
            assert forall|k: Seq<u8>| #[trigger]
                state::newest(sources, k) matches Some(EntryView::Vector(x)) implies {
                let x = state::newest(sources, k)->0->Vector_0;
                x.len() == 4 * d && insert::prepared(math, metric, vector::components(x)) is Some
            } by {
                assert(state::newest(sources.push(empty), k) == state::newest(sources, k));
            }
        }
    }
    assert forall|k: Seq<u8>| #[trigger] index.indexed(k) == match state::newest(
        sources.push(empty),
        k,
    ) {
        Some(e) => embedding(math, start.graph().spec_params().metric, Some(e)),
        None => start.indexed(k),
    } by {
        assert(state::newest(sources.push(empty), k) == state::newest(sources, k));
    }
}

/// One more entry of the last source.
proof fn lemma_push_one<M: VectorMath>(
    math: &M,
    start: VectorIndex,
    sources: Seq<Pairs>,
    prefix: Pairs,
    top: (Seq<u8>, EntryView),
    index: VectorIndex,
    seen: KeyMap<bool>,
    index_after: VectorIndex,
    seen_after: KeyMap<bool>,
)
    requires
        is_applied(math, start, sources.push(prefix), index, seen),
        assoc::sorted_pairs(prefix),
        prefix.len() > 0 ==> order::key_less(prefix.last().0, top.0),
        index_after.wf(),
        seen_after.wf(),
        index_after.graph().spec_params() == index.graph().spec_params(),
        forall|k: Seq<u8>| #[trigger]
            assoc::has_key(seen_after.pairs(), k) == (k == top.0 || assoc::has_key(
                seen.pairs(),
                k,
            )),
        if assoc::has_key(seen.pairs(), top.0) {
            index_after == index
        } else {
            &&& index_after.indexed(top.0) == embedding(
                math,
                index.graph().spec_params().metric,
                Some(top.1),
            )
            &&& takes_in(math, index, top.0, top.1, index_after)
        },
        forall|k: Seq<u8>|
            k != top.0 ==> #[trigger] index_after.indexed(k) == index.indexed(k),
        index.is_storable() && top.0.len() > 0 ==> index_after.is_storable(),
        if !assoc::has_key(seen.pairs(), top.0) && top.1 is Vector {
            &&& index_after.dim() == Some((top.1.payload().len() / 4) as usize)
            &&& index_after.graph().spec_dim() == top.1.payload().len() / 4
            &&& index_after.graph().nodes().len() == index.graph().nodes().len() + 1
        } else {
            &&& index_after.dim() == index.dim()
            &&& index_after.graph().spec_dim() == index.graph().spec_dim()
            &&& index_after.graph().nodes().len() == index.graph().nodes().len()
        },
    ensures
        is_applied(math, start, sources.push(prefix.push(top)), index_after, seen_after),
{
    let none = Seq::<Pairs>::empty();
    let a = sources.push(prefix);
    let b = sources.push(prefix.push(top));
    assert forall|k: Seq<u8>| #[trigger] state::newest(b, k) == (if k == top.0 && state::newest(
        a,
        k,
    ) is None {
        Some(top.1)
    } else {
        state::newest(a, k)
    }) by {
        assert(a =~= sources + (seq![prefix] + none));
        assert(b =~= sources + (seq![prefix.push(top)] + none));
        state::lemma_newest_concat(sources, seq![prefix] + none, k);
        state::lemma_newest_concat(sources, seq![prefix.push(top)] + none, k);
        state::lemma_newest_front(prefix, none, k);
        state::lemma_newest_front(prefix.push(top), none, k);
        assoc::lemma_find_push(prefix, top, k);
        order::lemma_key_irreflexive(top.0);
        if k == top.0 && assoc::has_key(prefix, k) {
            let i = choose|i: int| 0 <= i < prefix.len() && (#[trigger] prefix[i]).0 == k;
            if i < prefix.len() - 1 {
                assert(order::key_less(prefix[i].0, prefix[prefix.len() - 1].0));
                order::lemma_key_transitive(k, prefix.last().0, top.0);
            }
        }
    }
    assert forall|k: Seq<u8>| #[trigger] assoc::has_key(seen_after.pairs(), k) == state::newest(
        b,
        k,
    ) is Some by {
        assert(assoc::has_key(seen.pairs(), k) == state::newest(a, k) is Some);
        assert(state::newest(b, k) is Some == (k == top.0 || state::newest(a, k) is Some));
    }
    let metric = start.graph().spec_params().metric;
    assert forall|d: int|
        takes(start, d) && #[trigger] uniform(math, metric, b, d) implies takes(index_after, d) by {
        assert(uniform(math, metric, a, d)) by {
            assert forall|k: Seq<u8>| #[trigger]
                state::newest(a, k) matches Some(EntryView::Vector(x)) implies {
                let x = state::newest(a, k)->0->Vector_0;
                x.len() == 4 * d && insert::prepared(
                    math,
                    metric,
                    vector::components(x),
                ) is Some
            } by {
                assert(state::newest(b, k) == state::newest(a, k));
            }
        }
        assert(takes(index, d));
        assert(assoc::has_key(seen.pairs(), top.0) == state::newest(a, top.0) is Some);
        if !assoc::has_key(seen.pairs(), top.0) && top.1 is Vector {
            assert(state::newest(b, top.0) == Some(top.1));
        }
    }
    assert(a.drop_last() =~= sources);
    assert(b.drop_last() =~= sources);
    assert(built(math, start, all_entries(b), index_after)) by {
        assert(all_entries(b) =~= all_entries(a).push(top));
        assert(all_entries(b).drop_last() =~= all_entries(a));
        assert(all_entries(b).last() == top);
        lemma_all_entries(a, top.0);
        assert(assoc::has_key(seen.pairs(), top.0) == state::newest(a, top.0) is Some);
        assert(takes_last(math, index, all_entries(b), index_after));
    }
    if start.is_storable() && state::newest(b, Seq::empty()) is None {
        assert(state::newest(a, Seq::empty()) is None);
        assert(top.0 != Seq::<u8>::empty());
        if top.0.len() == 0 {
            assert(top.0 =~= Seq::<u8>::empty());
        }
    }
    assert forall|k: Seq<u8>| #[trigger] index_after.indexed(k) == match state::newest(b, k) {
        Some(e) => embedding(math, start.graph().spec_params().metric, Some(e)),
        None => start.indexed(k),
    } by {
        assert(assoc::has_key(seen.pairs(), k) == state::newest(a, k) is Some);
        assert(index.indexed(k) == match state::newest(a, k) {
            Some(e) => embedding(math, start.graph().spec_params().metric, Some(e)),
            None => start.indexed(k),
        });
    }
}

/// The entries of the memtable, as the items of a walk.
fn memtable_items(memtable: &Memtable) -> (items: Vec<Item>)
    ensures
        !merge::fails(items@),
        merge::good(items@) == memtable.pairs(),
{
    let entries = memtable.iter();
    let ghost pairs = memtable.pairs();
    let mut items: Vec<Item> = Vec::new();
    let mut i: usize = 0;
    assert(merge::good(items@) =~= pairs.take(0));
    while i < entries.len()
        invariant
            i <= entries@.len(),
            pairs == memtable.pairs(),
            entries@.len() == pairs.len(),
            forall|j: int|
                0 <= j < entries@.len() ==> (#[trigger] entries@[j]).0@ == pairs[j].0
                    && entries@[j].1@ == pairs[j].1,
            items@.len() == i,
            !merge::fails(items@),
            merge::good(items@) == pairs.take(i as int),
        decreases entries@.len() - i,
    {
        let (key, entry) = entries[i];
        let ghost before = items@;
        items.push(Ok((copy_bytes(key), entry.copy())));
        proof {
            assert(items@.drop_last() =~= before);
            levels::lemma_good_push_ok(before, items@);
            assert(pairs.take(i + 1) =~= pairs.take(i as int).push(pairs[i as int]));
        }
        i = i + 1;
    }
    assert(pairs.take(i as int) =~= pairs);
    items
}

/// The tables of `refs` with a number not below `n`.
pub open spec fn since(refs: Seq<TableRef>, n: u64) -> Seq<TableRef>
    decreases refs.len(),
{
    if refs.len() == 0 {
        refs
    } else {
        let before = since(refs.drop_last(), n);
        if refs.last().0 >= n {
            before.push(refs.last())
        } else {
            before
        }
    }
}

/// Where the embeddings of a further source are welcome, those before are.
proof fn lemma_fewer_welcome<M: VectorMath>(
    math: &M,
    start: VectorIndex,
    a: Seq<Pairs>,
    next: Pairs,
)
    requires
        all_welcome(math, start, a.push(next)),
    ensures
        all_welcome(math, start, a),
{
    let metric = start.graph().spec_params().metric;
    let b = a.push(next);
    let d = choose|d: int| takes(start, d) && #[trigger] uniform(math, metric, b, d);
    assert(b =~= a + seq![next]);
    assert(uniform(math, metric, a, d)) by {
        assert forall|k: Seq<u8>| #[trigger]
            state::newest(a, k) matches Some(EntryView::Vector(x)) implies {
            let x = state::newest(a, k)->0->Vector_0;
            x.len() == 4 * d && insert::prepared(math, metric, vector::components(x)) is Some
        } by {
            state::lemma_newest_concat(a, seq![next], k);
            assert(state::newest(b, k) == state::newest(a, k));
        }
    }
    assert(b.drop_last() =~= a);
}

/// Where the embeddings of a source are welcome, those of its first entries
/// are.
proof fn lemma_cut_welcome<M: VectorMath>(
    math: &M,
    start: VectorIndex,
    a: Seq<Pairs>,
    cut: Pairs,
    whole: Pairs,
)
    requires
        assoc::sorted_pairs(cut),
        assoc::sorted_pairs(whole),
        cut.is_prefix_of(whole),
        all_welcome(math, start, a.push(whole)),
    ensures
        all_welcome(math, start, a.push(cut)),
{
    let metric = start.graph().spec_params().metric;
    let b = a.push(whole);
    let c = a.push(cut);
    let d = choose|d: int| takes(start, d) && #[trigger] uniform(math, metric, b, d);
    assert(uniform(math, metric, c, d)) by {
        assert forall|k: Seq<u8>| #[trigger]
            state::newest(c, k) matches Some(EntryView::Vector(x)) implies {
            let x = state::newest(c, k)->0->Vector_0;
            x.len() == 4 * d && insert::prepared(math, metric, vector::components(x)) is Some
        } by {
            lemma_cut_source(a, cut, whole, k);
        }
    }
    assert(b.drop_last() =~= a);
    assert(c.drop_last() =~= a);
}

impl EngineInner {
    /// The memtable and the tables with a number not below `n`, newest first.
    pub open spec fn sources_since(&self, files: io::Files, n: u64) -> Seq<Pairs> {
        seq![self.mem()] + state::tables_in(files, state::names_of(since(self.refs(), n)))
    }

    /// Takes the entries of the memtable, and of the tables with a number not
    /// below `n`, into an index.
    pub(crate) fn apply_since<I: Io, M: VectorMath>(
        &self,
        io: &I,
        math: &M,
        start: VectorIndex,
        n: u64,
    ) -> (r: Result<VectorIndex>)
        requires
            self.wf(io.files()),
            math.ready(),
            start.wf(),
        ensures
            match r {
                Ok(index) => {
                    &&& index.wf()
                    &&& index.graph().spec_params() == start.graph().spec_params()
                    &&& index_is(math, start, self.sources_since(io.files(), n), index)
                    &&& built(
                        math,
                        start,
                        all_entries(self.sources_since(io.files(), n)),
                        index,
                    )
                    &&& start.is_storable() && state::newest(
                        self.sources_since(io.files(), n),
                        Seq::empty(),
                    ) is None ==> index.is_storable()
                },
                Err(e) => {
                    &&& e is Io || e is Corruption || e is InvalidArgument
                    &&& e is Io ==> !io.is_reliable() || self.has_lost(io.files())
                    &&& !(e is Io) ==> !self.is_sound(io.files()) || !all_welcome(
                        math,
                        start,
                        self.sources_since(io.files(), n),
                    )
                },
            },
    {
        let ghost files = io.files();
        let ghost first = start;
        let ghost refs = self.refs();
        let ghost r0 = self.levels().refs0();
        let ghost r1 = self.levels().refs1();
        let ghost mem = self.mem();
        let mut index = start;
        let mut seen: KeyMap<bool> = KeyMap::new();
        let ghost none = Seq::<Pairs>::empty();
        proof {
            assert forall|k: Seq<u8>| #[trigger] assoc::has_key(seen.pairs(), k) == state::newest(
                none,
                k,
            ) is Some by {}
        }
        let items = memtable_items(&self.memtable);
        let ghost one = none.push(mem);
        match apply_all(&mut index, &mut seen, math, items, Ghost(first), Ghost(none)) {
            Ok(_) => {},
            Err(e) => {
                proof {
                    assert(since(refs.take(0), n) =~= Seq::empty());
                    assert(prefix_sources(mem, files, refs, 0, n) =~= one);
                    if all_welcome(math, first, self.sources_since(files, n)) {
                        lemma_prefix_welcome(math, first, mem, files, refs, 0, n);
                    }
                }
                return Err(e);
            },
        }
        let mut i: usize = 0;
        proof {
            assert(since(refs.take(0), n) =~= Seq::empty());
            assert(prefix_sources(mem, files, refs, 0, n) =~= one);
        }
        while i < self.levels.len0()
            invariant
                self.wf(files),
                files == io.files(),
                first == start,
                math.ready(),
                mem == self.mem(),
                refs == self.refs(),
                r0 == self.levels().refs0(),
                i <= r0.len(),
                is_applied(math, first, prefix_sources(mem, files, refs, i as int, n), index, seen),
            decreases r0.len() - i,
        {
            let entry = self.levels.entry0(i);
            assert(refs[i as int] == r0[i as int]);
            if entry.id() >= n {
                let items = entry.read_all(io);
                let ghost before = prefix_sources(mem, files, refs, i as int, n);
                match apply_all(&mut index, &mut seen, math, items, Ghost(first), Ghost(before)) {
                    Ok(_) => {},
                    Err(e) => {
                        proof {
                            self.lemma_apply_stops(
                                math,
                                first,
                                files,
                                n,
                                i as int,
                                items@,
                                e,
                                io.is_reliable(),
                            );
                        }
                        return Err(e);
                    },
                }
            }
            proof {
                lemma_prefix_next(mem, files, refs, i as int, n);
            }
            i = i + 1;
        }
        let mut j: usize = 0;
        while j < self.levels.len1()
            invariant
                self.wf(files),
                files == io.files(),
                first == start,
                math.ready(),
                mem == self.mem(),
                refs == self.refs(),
                r0 == self.levels().refs0(),
                r1 == self.levels().refs1(),
                j <= r1.len(),
                is_applied(
                    math,
                    first,
                    prefix_sources(mem, files, refs, r0.len() + j, n),
                    index,
                    seen,
                ),
            decreases r1.len() - j,
        {
            let entry = self.levels.entry1(j);
            let ghost at = r0.len() + j;
            assert(refs[at] == r1[j as int]);
            if entry.id() >= n {
                let items = entry.read_all(io);
                let ghost before = prefix_sources(mem, files, refs, at, n);
                match apply_all(&mut index, &mut seen, math, items, Ghost(first), Ghost(before)) {
                    Ok(_) => {},
                    Err(e) => {
                        proof {
                            self.lemma_apply_stops(
                                math,
                                first,
                                files,
                                n,
                                at,
                                items@,
                                e,
                                io.is_reliable(),
                            );
                        }
                        return Err(e);
                    },
                }
            }
            proof {
                lemma_prefix_next(mem, files, refs, at, n);
            }
            j = j + 1;
        }
        proof {
            assert(refs.take(refs.len() as int) =~= refs);
        }
        Ok(index)
    }

    /// Why taking in table `i` failed.
    proof fn lemma_apply_stops<M: VectorMath>(
        &self,
        math: &M,
        start: VectorIndex,
        files: io::Files,
        n: u64,
        i: int,
        items: Seq<Item>,
        e: Error,
        reliable: bool,
    )
        requires
            0 <= i < self.refs().len(),
            self.refs()[i].0 >= n,
            levels::reads(files[self.refs()[i].1], items),
            reliable && state::is_sound(files[self.refs()[i].1]) ==> !merge::fails(items),
            reliable ==> levels::io_means_lost(files[self.refs()[i].1], items),
            (exists|j: int|
                0 <= j < items.len() && #[trigger] items[j] == Err::<(Vec<u8>, Entry), Error>(e))
                || ((e is Corruption || e is InvalidArgument) && !all_welcome(
                math,
                start,
                prefix_sources(self.mem(), files, self.refs(), i, n).push(merge::good(items)),
            )),
        ensures
            e is Io || e is Corruption || e is InvalidArgument,
            e is Io ==> !reliable || self.has_lost(files),
            !(e is Io) ==> !self.is_sound(files) || !all_welcome(
                math,
                start,
                self.sources_since(files, n),
            ),
    {
        let refs = self.refs();
        let b = files[refs[i].1];
        if exists|j: int|
            0 <= j < items.len() && #[trigger] items[j] == Err::<(Vec<u8>, Entry), Error>(e) {
            let j = choose|j: int|
                0 <= j < items.len() && #[trigger] items[j] == Err::<(Vec<u8>, Entry), Error>(e);
            assert(items[j] is Err);
        } else if self.is_sound(files) && all_welcome(math, start, self.sources_since(files, n)) {
            let before = prefix_sources(self.mem(), files, refs, i, n);
            assert(state::is_sound(b));
            lemma_prefix_welcome(math, start, self.mem(), files, refs, i + 1, n);
            lemma_prefix_next(self.mem(), files, refs, i, n);
            lemma_cut_welcome(math, start, before, merge::good(items), state::pairs_in(b));
        }
    }
}

/// The memtable and those of the first `i` tables that have a number not
/// below `n`.
spec fn prefix_sources(
    mem: Pairs,
    files: io::Files,
    refs: Seq<TableRef>,
    i: int,
    n: u64,
) -> Seq<Pairs> {
    seq![mem] + state::tables_in(files, state::names_of(since(refs.take(i), n)))
}

proof fn lemma_prefix_next(mem: Pairs, files: io::Files, refs: Seq<TableRef>, i: int, n: u64)
    requires
        0 <= i < refs.len(),
    ensures
        prefix_sources(mem, files, refs, i + 1, n) == (if refs[i].0 >= n {
            prefix_sources(mem, files, refs, i, n).push(state::pairs_in(files[refs[i].1]))
        } else {
            prefix_sources(mem, files, refs, i, n)
        }),
{
    assert(refs.take(i + 1).drop_last() =~= refs.take(i));
    if refs[i].0 >= n {
        assert(prefix_sources(mem, files, refs, i + 1, n) =~= prefix_sources(
            mem,
            files,
            refs,
            i,
            n,
        ).push(state::pairs_in(files[refs[i].1])));
    }
}

/// Where the embeddings of all tables are welcome, those of the first ones
/// are.
proof fn lemma_prefix_welcome<M: VectorMath>(
    math: &M,
    start: VectorIndex,
    mem: Pairs,
    files: io::Files,
    refs: Seq<TableRef>,
    i: int,
    n: u64,
)
    requires
        0 <= i <= refs.len(),
        all_welcome(
            math,
            start,
            seq![mem] + state::tables_in(files, state::names_of(since(refs, n))),
        ),
    ensures
        all_welcome(math, start, prefix_sources(mem, files, refs, i, n)),
    decreases refs.len() - i,
{
    assert(refs.take(refs.len() as int) =~= refs);
    if i < refs.len() {
        lemma_prefix_next(mem, files, refs, i, n);
        lemma_prefix_welcome(math, start, mem, files, refs, i + 1, n);
        if refs[i].0 >= n {
            lemma_fewer_welcome(
                math,
                start,
                prefix_sources(mem, files, refs, i, n),
                state::pairs_in(files[refs[i].1]),
            );
        }
    }
}

/// What a source that is cut short holds, the whole one holds too.
proof fn lemma_cut_source(before: Seq<Pairs>, cut: Pairs, whole: Pairs, k: Seq<u8>)
    requires
        assoc::sorted_pairs(cut),
        assoc::sorted_pairs(whole),
        cut.is_prefix_of(whole),
        state::newest(before.push(cut), k) is Some,
    ensures
        state::newest(before.push(whole), k) == state::newest(before.push(cut), k),
{
    let none = Seq::<Pairs>::empty();
    assert(before.push(cut) =~= before + (seq![cut] + none));
    assert(before.push(whole) =~= before + (seq![whole] + none));
    state::lemma_newest_concat(before, seq![cut] + none, k);
    state::lemma_newest_concat(before, seq![whole] + none, k);
    state::lemma_newest_front(cut, none, k);
    state::lemma_newest_front(whole, none, k);
    if assoc::has_key(cut, k) {
        let i = choose|i: int| 0 <= i < cut.len() && (#[trigger] cut[i]).0 == k;
        assoc::lemma_find_at(cut, i);
        assert(whole[i] == cut[i]);
        assoc::lemma_find_at(whole, i);
    }
}

} // verus!
