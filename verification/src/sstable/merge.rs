//! Merge of sorted streams in which the newest entry of each key wins.
//!
//! [`MergingIterator`] takes several streams of entries in ascending key
//! order and gives one such stream in which each key occurs once: where
//! several streams hold a key, the entry of the stream with the highest
//! sequence number is given and the others are dropped. Tombstones are given
//! like any other entry.

use crate::assoc;
use crate::codec::same_bytes;
use crate::error::{Error, Result};
use crate::memtable::{Entry, EntryView};
use crate::order;
use crate::order::{order_keys, KeyOrder};
use crate::sstable::layout::Pairs;
use vstd::prelude::*;

verus! {

/// One item of a stream.
pub type Item = Result<(Vec<u8>, Entry)>;

/// The entries of a stream up to its first error.
pub open spec fn good(items: Seq<Item>) -> Pairs
    decreases items.len(),
{
    if items.len() == 0 {
        Seq::empty()
    } else {
        match items[0] {
            Ok((k, e)) => seq![(k@, e@)] + good(items.skip(1)),
            Err(_) => Seq::empty(),
        }
    }
}

/// The stream has an error.
pub open spec fn fails(items: Seq<Item>) -> bool {
    exists|i: int| 0 <= i < items.len() && (#[trigger] items[i]) is Err
}

/// Of a stream every entry up to its first error counts, as it is.
pub proof fn lemma_good(items: Seq<Item>, n: int)
    requires
        0 <= n <= items.len(),
        forall|i: int| 0 <= i < n ==> (#[trigger] items[i]) is Ok,
        n < items.len() ==> items[n] is Err,
    ensures
        good(items).len() == n,
        forall|i: int|
            0 <= i < n ==> #[trigger] good(items)[i] == ((items[i]->Ok_0).0@, (items[i]->Ok_0).1@),
    decreases n,
{
    if n > 0 {
        let rest = items.skip(1);
        assert(items[0] is Ok);
        assert forall|i: int| 0 <= i < n - 1 implies (#[trigger] rest[i]) is Ok by {
            assert(items[i + 1] is Ok);
        }
        lemma_good(rest, n - 1);
        assert forall|i: int| 0 <= i < n implies #[trigger] good(items)[i] == (
            (items[i]->Ok_0).0@,
            (items[i]->Ok_0).1@,
        ) by {
            if i > 0 {
                assert(good(items)[i] == good(rest)[i - 1]);
                assert(rest[i - 1] == items[i]);
            }
        }
    }
}

/// The first error of the stream.
pub open spec fn first_error(items: Seq<Item>) -> Option<Error>
    decreases items.len(),
{
    if items.len() == 0 {
        None
    } else {
        match items[0] {
            Ok(_) => first_error(items.skip(1)),
            Err(e) => Some(e),
        }
    }
}

/// The stream starts with an error.
pub open spec fn starts_with_error(items: Seq<Item>) -> bool {
    items.len() > 0 && items[0] is Err
}

/// `e` is an error of the stream.
pub open spec fn error_in(items: Seq<Item>, e: Error) -> bool {
    exists|i: int| 0 <= i < items.len() && #[trigger] items[i] == Err::<(Vec<u8>, Entry), Error>(e)
}

/// A stream of entries in ascending key order.
pub struct SortedEntryIter {
    /// What is still to come, last first.
    items: Vec<Item>,
}

impl SortedEntryIter {
    /// What is still to come.
    pub closed spec fn rest(&self) -> Seq<Item> {
        self.items@.reverse()
    }

    /// The stream that gives `items`.
    pub fn new(items: Vec<Item>) -> (it: SortedEntryIter)
        ensures
            it.rest() == items@,
    {
        let ghost all = items@;
        let mut from = items;
        let mut reversed: Vec<Item> = Vec::new();
        while from.len() > 0
            invariant
                from@.len() + reversed@.len() == all.len(),
                from@ == all.take(from@.len() as int),
                forall|i: int|
                    0 <= i < reversed@.len() ==> #[trigger] reversed@[i] == all[all.len() - 1 - i],
            decreases from@.len(),
        {
            match from.pop() {
                Some(item) => {
                    reversed.push(item);
                },
                None => {},
            }
        }
        let it = SortedEntryIter { items: reversed };
        assert(it.rest() =~= all);
        it
    }

    /// The next item.
    pub fn next(&mut self) -> (r: Option<Item>)
        ensures
            match r {
                Some(item) => {
                    &&& old(self).rest().len() > 0
                    &&& item == old(self).rest()[0]
                    &&& final(self).rest() == old(self).rest().skip(1)
                },
                None => old(self).rest().len() == 0 && final(self).rest() == old(self).rest(),
            },
    {
        let r = self.items.pop();
        proof {
            if r is Some {
                assert(self.rest() =~= old(self).rest().skip(1));
            }
        }
        r
    }
}

/// One source of a merge.
pub struct MergeSource {
    /// A higher number is newer.
    pub sequence: u64,
    /// The entries.
    pub iter: SortedEntryIter,
}

/// `e` is an error of one of the sources.
pub open spec fn some_error(sources: Seq<MergeSource>, e: Error) -> bool {
    exists|i: int|
        0 <= i < sources.len() && error_in(#[trigger] sources[i].iter.rest(), e)
}

/// The queue of entries of each source.
pub open spec fn queues_of(sources: Seq<MergeSource>) -> Seq<Pairs> {
    sources.map_values(|s: MergeSource| good(s.iter.rest()))
}

/// The sequence number of each source.
pub open spec fn sequences_of(sources: Seq<MergeSource>) -> Seq<u64> {
    sources.map_values(|s: MergeSource| s.sequence)
}

/// The keys of each queue ascend.
pub open spec fn all_sorted(qs: Seq<Pairs>) -> bool {
    forall|i: int| 0 <= i < qs.len() ==> assoc::sorted_pairs(#[trigger] qs[i])
}

/// No queue has entries left.
pub open spec fn all_empty(qs: Seq<Pairs>) -> bool {
    forall|i: int| 0 <= i < qs.len() ==> (#[trigger] qs[i]).len() == 0
}

/// The head of queue `w` is the smallest, and of those with its key the
/// newest.
pub open spec fn wins(qs: Seq<Pairs>, seqs: Seq<u64>, w: int) -> bool {
    &&& 0 <= w < qs.len()
    &&& qs[w].len() > 0
    &&& forall|j: int|
        0 <= j < qs.len() && (#[trigger] qs[j]).len() > 0 ==> {
            &&& order::key_less_eq(qs[w][0].0, qs[j][0].0)
            &&& qs[j][0].0 == qs[w][0].0 ==> seqs[j] <= seqs[w]
        }
}

/// The queue `q` after its entry for `k`, which may be at its head.
pub open spec fn without(q: Pairs, k: Seq<u8>) -> Pairs {
    if q.len() > 0 && q[0].0 == k {
        q.skip(1)
    } else {
        q
    }
}

/// `e` is the entry for `k` in the newest of the queues that hold `k`.
pub open spec fn is_newest(qs: Seq<Pairs>, seqs: Seq<u64>, k: Seq<u8>, e: EntryView) -> bool {
    exists|i: int|
        0 <= i < qs.len() && assoc::find(#[trigger] qs[i], k) == Some(e) && forall|j: int|
            0 <= j < qs.len() && assoc::has_key(#[trigger] qs[j], k) ==> seqs[j] <= seqs[i]
}

/// Some queue holds `k`.
pub open spec fn some_holds(qs: Seq<Pairs>, k: Seq<u8>) -> bool {
    exists|i: int| 0 <= i < qs.len() && assoc::has_key(#[trigger] qs[i], k)
}

/// `out` is the merge of `all` as far as it has come, with the queues `qs`
/// still to go.
pub open spec fn merged(out: Pairs, qs: Seq<Pairs>, all: Seq<Pairs>, seqs: Seq<u64>) -> bool {
    &&& qs.len() == all.len() == seqs.len()
    &&& assoc::sorted_pairs(out)
    &&& all_sorted(qs)
    &&& all_sorted(all)
    &&& forall|i: int, j: int|
        0 <= i < qs.len() && 0 <= j < qs[i].len() && out.len() > 0 ==> order::key_less(
            out.last().0,
            (#[trigger] qs[i][j]).0,
        )
    &&& forall|k: Seq<u8>|
        #![trigger assoc::find(out, k)]
        assoc::has_key(out, k) ==> is_newest(all, seqs, k, assoc::find(out, k)->0)
    &&& forall|i: int, k: Seq<u8>|
        0 <= i < qs.len() ==> #[trigger] assoc::find(qs[i], k) == (if assoc::has_key(out, k) {
            None
        } else {
            assoc::find(all[i], k)
        })
}

/// Merge iterator.
pub struct MergingIterator {
    sources: Vec<SortedEntryIter>,
    /// The next entry of each source that has one.
    heads: Vec<Option<(Vec<u8>, Entry)>>,
    sequences: Vec<u64>,
    /// An error of a source that is still to be reported. The entry that was
    /// decoded before it is given first.
    pending_error: Option<Error>,
    /// An error was reported; there is nothing more to come.
    poisoned: bool,
}

/// The entries of a source, its head included.
spec fn queue(head: Option<(Vec<u8>, Entry)>, rest: Seq<Item>) -> Pairs {
    match head {
        Some((k, e)) => seq![(k@, e@)] + good(rest),
        None => Seq::empty(),
    }
}

impl MergingIterator {
    /// The entries of each source that are still to come.
    pub closed spec fn queues(&self) -> Seq<Pairs> {
        Seq::new(
            self.heads@.len(),
            |i: int| queue(self.heads@[i], self.sources@[i].rest()),
        )
    }

    /// The sequence number of each source.
    pub closed spec fn seqs(&self) -> Seq<u64> {
        self.sequences@
    }

    /// Source `i` will report an error.
    pub closed spec fn will_fail(&self, i: int) -> bool {
        fails(self.sources@[i].rest())
    }

    /// The error that source `i` will report.
    pub closed spec fn error_of(&self, i: int) -> Option<Error> {
        first_error(self.sources@[i].rest())
    }

    /// The entry for `k` is the last of source `i` before an error.
    pub open spec fn breaks_after(&self, k: Seq<u8>, i: int) -> bool {
        &&& 0 <= i < self.queues().len()
        &&& self.queues()[i].len() == 1
        &&& self.queues()[i][0].0 == k
        &&& self.error_of(i) is Some
    }

    /// Of the sources that run into an error after their entry for `k`, `i` is
    /// the one whose error is reported: `w`, whose entry is given, comes last,
    /// the others from newest to oldest.
    pub open spec fn breaks_first(&self, k: Seq<u8>, w: int, i: int) -> bool {
        &&& self.breaks_after(k, i)
        &&& forall|j: int| #[trigger]
            self.breaks_after(k, j) && j != w ==> i != w && self.seqs()[j] <= self.seqs()[i]
    }

    /// `e` is an error of a source that is still to come.
    pub closed spec fn may_report(&self, e: Error) -> bool {
        exists|i: int|
            0 <= i < self.sources@.len() && error_in(#[trigger] self.sources@[i].rest(), e)
    }

    /// The error that is to be reported next.
    pub closed spec fn pending(&self) -> Option<Error> {
        self.pending_error
    }

    /// An error was reported.
    pub closed spec fn is_poisoned(&self) -> bool {
        self.poisoned
    }

    /// An error has come up.
    pub open spec fn failed(&self) -> bool {
        self.pending() is Some || self.is_poisoned()
    }

    /// There is a head for each source that has entries left, and the keys
    /// of each source ascend.
    pub closed spec fn wf(&self) -> bool {
        &&& self.sources@.len() == self.heads@.len() == self.sequences@.len()
        &&& all_sorted(self.queues())
        &&& !self.failed() ==> forall|i: int|
            0 <= i < self.heads@.len() && (#[trigger] self.heads@[i]) is None
                ==> self.sources@[i].rest().len() == 0
    }

    /// A source that has no entries left has no error left either.
    pub proof fn lemma_drained(&self, i: int)
        requires
            self.wf(),
            !self.failed(),
            0 <= i < self.queues().len(),
            self.queues()[i].len() == 0,
        ensures
            !self.will_fail(i),
            self.error_of(i) is None,
    {
        assert(self.heads@[i] is None);
    }

    /// A source will fail if it has an error to report.
    pub proof fn lemma_error_of(&self, i: int)
        ensures
            self.will_fail(i) == (self.error_of(i) is Some),
    {
        lemma_first_error(self.sources@[i].rest());
    }

    /// A merge of `sources`, each in strictly ascending key order. An error
    /// at the start of a source is returned.
    pub fn new(sources: Vec<MergeSource>) -> (r: Result<MergingIterator>)
        requires
            all_sorted(queues_of(sources@)),
        ensures
            match r {
                Ok(m) => {
                    &&& m.wf()
                    &&& !m.failed()
                    &&& m.queues() == queues_of(sources@)
                    &&& m.seqs() == sequences_of(sources@)
                    &&& forall|i: int|
                        0 <= i < sources@.len() ==> #[trigger] m.will_fail(i) == fails(
                            sources@[i].iter.rest(),
                        )
                    &&& forall|i: int|
                        0 <= i < sources@.len() ==> #[trigger] m.error_of(i) == first_error(
                            sources@[i].iter.rest(),
                        )
                    &&& forall|i: int|
                        0 <= i < sources@.len() ==> !starts_with_error(
                            (#[trigger] sources@[i]).iter.rest(),
                        )
                    &&& forall|e: Error| #[trigger]
                        m.may_report(e) ==> some_error(sources@, e)
                },
                Err(e) => exists|i: int|
                    0 <= i < sources@.len() && (#[trigger] sources@[i]).iter.rest().len() > 0
                        && sources@[i].iter.rest()[0] == Err::<(Vec<u8>, Entry), Error>(e)
                        && forall|j: int|
                        0 <= j < i ==> !starts_with_error((#[trigger] sources@[j]).iter.rest()),
            },
    {
        let ghost all = sources@;
        let mut iters: Vec<SortedEntryIter> = Vec::new();
        let mut heads: Vec<Option<(Vec<u8>, Entry)>> = Vec::new();
        let mut sequences: Vec<u64> = Vec::new();
        let n = sources.len();
        let mut from = sources;
        let mut reversed: Vec<MergeSource> = Vec::new();
        while from.len() > 0
            invariant
                n == all.len(),
                from@.len() + reversed@.len() == n,
                from@ == all.take(from@.len() as int),
                forall|i: int|
                    0 <= i < reversed@.len() ==> #[trigger] reversed@[i] == all[all.len() - 1 - i],
            decreases from@.len(),
        {
            match from.pop() {
                Some(s) => {
                    reversed.push(s);
                },
                None => {},
            }
        }
        while reversed.len() > 0
            invariant
                n == all.len(),
                all == sources@,
                iters@.len() + reversed@.len() == n,
                heads@.len() == iters@.len() == sequences@.len(),
                forall|i: int|
                    0 <= i < reversed@.len() ==> #[trigger] reversed@[i] == all[all.len() - 1 - i],
                forall|i: int|
                    0 <= i < iters@.len() ==> {
                        &&& queue(#[trigger] heads@[i], iters@[i].rest()) == good(
                            all[i].iter.rest(),
                        )
                        &&& heads@[i] is None ==> iters@[i].rest().len() == 0
                        &&& sequences@[i] == all[i].sequence
                        &&& fails(iters@[i].rest()) == fails(all[i].iter.rest())
                        &&& first_error(iters@[i].rest()) == first_error(all[i].iter.rest())
                        &&& !starts_with_error(all[i].iter.rest())
                        &&& forall|e: Error|
                            #[trigger] error_in(iters@[i].rest(), e) ==> error_in(
                                all[i].iter.rest(),
                                e,
                            )
                    },
            decreases reversed@.len(),
        {
            let ghost at = iters@.len() as int;
            match reversed.pop() {
                Some(s) => {
                    assert(s == all[at]);
                    let mut iter = s.iter;
                    let ghost whole = iter.rest();
                    let head = match iter.next() {
                        Some(Ok(pair)) => Some(pair),
                        Some(Err(e)) => {
                            assert(all[at].iter.rest()[0] == Err::<(Vec<u8>, Entry), Error>(e));
                            assert forall|j: int| 0 <= j < at implies !starts_with_error(
                                (#[trigger] all[j]).iter.rest(),
                            ) by {
                                assert(queue(heads@[j], iters@[j].rest()) == good(
                                    all[j].iter.rest(),
                                ));
                            }
                            return Err(e);
                        },
                        None => None,
                    };
                    proof {
                        if head is Some {
                            lemma_fails_skip(whole);
                            lemma_errors_skip(whole);
                        }
                        assert(queue(head, iter.rest()) =~= good(whole));
                    }
                    sequences.push(s.sequence);
                    heads.push(head);
                    iters.push(iter);
                },
                None => {},
            }
        }
        let m = MergingIterator {
            sources: iters,
            heads,
            sequences,
            pending_error: None,
            poisoned: false,
        };
        proof {
            assert forall|i: int| 0 <= i < n implies {
                &&& #[trigger] m.queues()[i] == queues_of(all)[i]
                &&& m.seqs()[i] == sequences_of(all)[i]
                &&& m.will_fail(i) == fails(all[i].iter.rest())
                &&& m.error_of(i) == first_error(all[i].iter.rest())
                &&& !starts_with_error(all[i].iter.rest())
            } by {
                assert(queue(heads@[i], iters@[i].rest()) == good(all[i].iter.rest()));
            }
            assert(m.queues() =~= queues_of(all));
            assert(m.seqs() =~= sequences_of(all)) by {
                assert forall|i: int| 0 <= i < n implies #[trigger] m.seqs()[i] == sequences_of(
                    all,
                )[i] by {
                    assert(m.queues()[i] == queues_of(all)[i]);
                }
            }
            assert forall|i: int| 0 <= i < n implies #[trigger] m.will_fail(i) == fails(
                all[i].iter.rest(),
            ) by {
                assert(m.queues()[i] == queues_of(all)[i]);
            }
            assert forall|i: int| 0 <= i < n implies #[trigger] m.error_of(i) == first_error(
                all[i].iter.rest(),
            ) by {
                assert(m.queues()[i] == queues_of(all)[i]);
            }
            assert forall|i: int| 0 <= i < n implies !starts_with_error(
                (#[trigger] all[i]).iter.rest(),
            ) by {
                assert(m.queues()[i] == queues_of(all)[i]);
            }
            assert forall|e: Error| #[trigger] m.may_report(e) implies some_error(all, e) by {
                let i = choose|i: int|
                    0 <= i < m.sources@.len() && error_in(#[trigger] m.sources@[i].rest(), e);
                assert(queue(heads@[i], iters@[i].rest()) == good(all[i].iter.rest()));
                assert(error_in(all[i].iter.rest(), e));
            }
        }
        Ok(m)
    }

    /// The source whose head wins; none if no source has a head.
    fn winner(&self) -> (r: Option<usize>)
        requires
            self.sources@.len() == self.heads@.len() == self.sequences@.len(),
        ensures
            match r {
                Some(w) => wins(self.queues(), self.seqs(), w as int),
                None => all_empty(self.queues()),
            },
    {
        let mut best: Option<usize> = None;
        let n = self.heads.len();
        for i in 0..n
            invariant
                n == self.heads@.len(),
                self.sources@.len() == self.heads@.len() == self.sequences@.len(),
                match best {
                    Some(w) => {
                        &&& w < i
                        &&& self.queues()[w as int].len() > 0
                        &&& forall|j: int|
                            0 <= j < i && (#[trigger] self.queues()[j]).len() > 0 ==> {
                                &&& order::key_less_eq(
                                    self.queues()[w as int][0].0,
                                    self.queues()[j][0].0,
                                )
                                &&& self.queues()[j][0].0 == self.queues()[w as int][0].0
                                    ==> self.seqs()[j] <= self.seqs()[w as int]
                            }
                    },
                    None => forall|j: int|
                        0 <= j < i ==> (#[trigger] self.queues()[j]).len() == 0,
                },
        {
            let ghost qs = self.queues();
            if let Some((key, _)) = &self.heads[i] {
                let better = match best {
                    None => true,
                    Some(w) => match &self.heads[w] {
                        None => true,
                        Some((top, _)) => match order_keys(key.as_slice(), top.as_slice()) {
                            KeyOrder::Before => true,
                            KeyOrder::Same => self.sequences[i] > self.sequences[w],
                            KeyOrder::After => false,
                        },
                    },
                };
                proof {
                    if best is Some {
                        let w = best->0 as int;
                        let a = qs[w][0].0;
                        let b = qs[i as int][0].0;
                        order::lemma_key_total(a, b);
                        assert forall|j: int|
                            0 <= j < i && (#[trigger] qs[j]).len() > 0 && order::key_less(
                                b,
                                a,
                            ) implies order::key_less(b, qs[j][0].0) by {
                            if a != qs[j][0].0 {
                                order::lemma_key_transitive(b, a, qs[j][0].0);
                            }
                        }
                        assert forall|j: int|
                            0 <= j < i && (#[trigger] qs[j]).len() > 0 && order::key_less(
                                b,
                                a,
                            ) implies qs[j][0].0 != b by {
                            order::lemma_key_irreflexive(b);
                        }
                    }
                }
                if better {
                    best = Some(i);
                }
            }
        }
        best
    }

    /// The next entry. An error of a source is reported once, after the
    /// entry before it; then there is nothing more to come.
    pub fn next(&mut self) -> (r: Option<Item>)
        requires
            old(self).wf(),
        ensures
            final(self).wf(),
            final(self).seqs() == old(self).seqs(),
            final(self).queues().len() == old(self).queues().len(),
            forall|e: Error| #[trigger]
                final(self).may_report(e) ==> old(self).may_report(e),
            old(self).pending() is None ==> (final(self).pending() matches Some(e) ==> old(
                self,
            ).may_report(e)),
            if old(self).is_poisoned() {
                r is None && final(self).is_poisoned()
            } else if old(self).pending() is Some {
                &&& r == Some(Err::<(Vec<u8>, Entry), Error>(old(self).pending()->0))
                &&& final(self).is_poisoned()
            } else if all_empty(old(self).queues()) {
                &&& r is None
                &&& final(self).queues() == old(self).queues()
                &&& !final(self).failed()
                &&& forall|i: int|
                    0 <= i < old(self).queues().len() ==> #[trigger] final(self).will_fail(i)
                        == old(self).will_fail(i)
                &&& forall|i: int|
                    0 <= i < old(self).queues().len() ==> #[trigger] final(self).error_of(i)
                        == old(self).error_of(i)
            } else {
                let qs = old(self).queues();
                &&& r matches Some(Ok((k, e)))
                &&& !final(self).is_poisoned()
                &&& exists|w: int|
                    #[trigger] wins(qs, old(self).seqs(), w) && qs[w][0] == (k@, e@) && (
                    final(self).pending() matches Some(x) ==> exists|i: int|
                        #[trigger] old(self).breaks_first(k@, w, i) && old(self).error_of(i)
                            == Some(x))
                &&& final(self).pending() is None ==> forall|i: int|
                    0 <= i < qs.len() ==> {
                        &&& #[trigger] final(self).queues()[i] == without(qs[i], k@)
                        &&& final(self).will_fail(i) == old(self).will_fail(i)
                        &&& final(self).error_of(i) == old(self).error_of(i)
                        &&& !old(self).breaks_after(k@, i)
                    }
            },
    {
        if self.poisoned {
            return None;
        }
        let pending = self.pending_error.take();
        match pending {
            Some(e) => {
                self.poisoned = true;
                return Some(Err(e));
            },
            None => {},
        }
        assert(self.queues() == old(self).queues());
        let w = match self.winner() {
            Some(w) => w,
            None => {
                return None;
            },
        };
        let ghost qs = self.queues();
        let mut taken: Option<(Vec<u8>, Entry)> = None;
        std::mem::swap(&mut self.heads[w], &mut taken);
        let (key, entry) = match taken {
            Some(pair) => pair,
            None => {
                assert(false);
                return None;
            },
        };
        let ghost k = key@;
        proof {
            assert(qs[w as int][0] == (k, entry@));
            assert(wins(qs, self.seqs(), w as int));
        }
        let n = self.heads.len();
        let mut i: usize = 0;
        // The error of the winner comes up last, those of the others from newest
        // to oldest.
        let mut error: Option<Error> = None;
        let mut failing: usize = w;
        let mut own: Option<Error> = None;
        while i < n
            invariant
                i <= n,
                n == self.heads@.len() == qs.len(),
                self.sources@.len() == self.heads@.len() == self.sequences@.len(),
                self.sequences@ == old(self).sequences@,
                self.pending_error is None,
                !self.poisoned,
                w < n,
                qs == old(self).queues(),
                n == old(self).heads@.len(),
                n == old(self).sources@.len(),
                k == key@,
                old(self).wf(),
                !old(self).failed(),
                qs[w as int].len() > 0,
                qs[w as int][0] == (k, entry@),
                all_sorted(qs),
                forall|j: int|
                    0 <= j < n && j != w ==> queue(
                        #[trigger] self.heads@[j],
                        self.sources@[j].rest(),
                    ) == (if j < i {
                        without(qs[j], k)
                    } else {
                        qs[j]
                    }),
                forall|j: int|
                    0 <= j < n && j != w ==> (#[trigger] self.heads@[j] is None
                        ==> self.sources@[j].rest().len() == 0 || error is Some),
                error is None ==> forall|j: int|
                    0 <= j < n && j != w ==> fails(#[trigger] self.sources@[j].rest()) == fails(
                        old(self).sources@[j].rest(),
                    ) && first_error(self.sources@[j].rest()) == first_error(
                        old(self).sources@[j].rest(),
                    ),
                match error {
                    Some(x) => {
                        &&& failing < i
                        &&& failing != w
                        &&& old(self).breaks_after(k, failing as int)
                        &&& old(self).error_of(failing as int) == Some(x)
                        &&& forall|j: int|
                            0 <= j < i && j != w && #[trigger] old(self).breaks_after(k, j)
                                ==> self.sequences@[j] <= self.sequences@[failing as int]
                    },
                    None => forall|j: int|
                        0 <= j < i && j != w ==> !(#[trigger] old(self).breaks_after(k, j)),
                },
                match own {
                    Some(x) => {
                        &&& w < i
                        &&& old(self).breaks_after(k, w as int)
                        &&& old(self).error_of(w as int) == Some(x)
                    },
                    None => w < i ==> !old(self).breaks_after(k, w as int),
                },
                failing < n,
                own matches Some(e) ==> old(self).may_report(e),
                forall|j: int|
                    i <= j < n ==> #[trigger] self.sources@[j] == old(self).sources@[j],
                forall|j: int, e: Error|
                    0 <= j < n && #[trigger] error_in(self.sources@[j].rest(), e) ==> error_in(
                        old(self).sources@[j].rest(),
                        e,
                    ),
                error matches Some(e) ==> old(self).may_report(e),
                i <= w ==> self.heads@[w as int] is None,
                i > w ==> queue(self.heads@[w as int], self.sources@[w as int].rest())
                    == qs[w as int].skip(1),
                i > w && self.heads@[w as int] is None ==> self.sources@[w as int].rest().len() == 0
                    || own is Some,
                i > w && own is None ==> fails(self.sources@[w as int].rest()) == fails(
                    old(self).sources@[w as int].rest(),
                ) && first_error(self.sources@[w as int].rest()) == first_error(
                    old(self).sources@[w as int].rest(),
                ),
            decreases n - i,
        {
            let stale: bool = if i == w {
                true
            } else {
                match &self.heads[i] {
                    Some((other, _)) => same_bytes(other.as_slice(), key.as_slice()),
                    None => false,
                }
            };
            if stale {
                let ghost before = self.sources@[i as int].rest();
                let ghost q = qs[i as int];
                proof {
                    assert(before == old(self).sources@[i as int].rest());
                    assert(q =~= seq![q[0]] + good(before));
                    assert(q.skip(1) =~= good(before));
                }
                let mut head: Option<(Vec<u8>, Entry)> = None;
                match self.sources[i].next() {
                    None => {},
                    Some(Ok(pair)) => {
                        head = Some(pair);
                    },
                    Some(Err(e)) => {
                        proof {
                            assert(before[0] is Err);
                            assert(error_in(before, e));
                            assert(fails(before));
                            assert(good(before) =~= Seq::empty());
                            assert(old(self).error_of(i as int) == Some(e));
                            assert(old(self).breaks_after(k, i as int));
                        }
                        if i == w {
                            own = Some(e);
                        } else if error.is_none() || self.sequences[i] > self.sequences[failing] {
                            error = Some(e);
                            failing = i;
                        }
                    },
                }
                self.heads[i] = head;
                proof {
                    if before.len() > 0 && before[0] is Ok {
                        lemma_fails_skip(before);
                    }
                    lemma_errors_skip(before);
                    assert(queue(self.heads@[i as int], self.sources@[i as int].rest())
                        =~= q.skip(1));
                }
            }
            i = i + 1;
        }
        proof {
            if error is Some {
                assert(old(self).breaks_first(k, w as int, failing as int));
            } else if own is Some {
                assert(old(self).breaks_first(k, w as int, w as int));
            }
        }
        self.pending_error = match error {
            Some(e) => Some(e),
            None => own,
        };
        proof {
            let now = self.queues();
            assert forall|j: int| 0 <= j < qs.len() implies #[trigger] now[j] == without(
                qs[j],
                k,
            ) by {
                if j == w {
                    assert(now[j] == qs[j].skip(1));
                } else {
                    assert(now[j] == queue(self.heads@[j], self.sources@[j].rest()));
                }
            }
            assert forall|j: int| 0 <= j < now.len() implies assoc::sorted_pairs(
                #[trigger] now[j],
            ) by {
                lemma_without_sorted(qs[j], k);
            }
        }
        Some(Ok((key, entry)))
    }
}

pub(crate) proof fn lemma_fails_skip(items: Seq<Item>)
    requires
        items.len() > 0,
        items[0] is Ok,
    ensures
        fails(items.skip(1)) == fails(items),
{
    if fails(items) {
        let i = choose|i: int| 0 <= i < items.len() && (#[trigger] items[i]) is Err;
        assert(items.skip(1)[i - 1] is Err);
    }
    if fails(items.skip(1)) {
        let i = choose|i: int| 0 <= i < items.skip(1).len() && (#[trigger] items.skip(1)[i]) is Err;
        assert(items[i + 1] is Err);
    }
}

/// A stream has a first error if it has one.
proof fn lemma_first_error(items: Seq<Item>)
    ensures
        fails(items) == (first_error(items) is Some),
    decreases items.len(),
{
    if items.len() > 0 {
        match items[0] {
            Ok(_) => {
                lemma_fails_skip(items);
                lemma_first_error(items.skip(1));
            },
            Err(_) => {},
        }
    }
}

/// What follows the first item has no other errors.
proof fn lemma_errors_skip(items: Seq<Item>)
    ensures
        forall|e: Error| #[trigger] error_in(items.skip(1), e) && items.len() > 0 ==> error_in(items, e),
{
    assert forall|e: Error| #[trigger] error_in(items.skip(1), e) && items.len()
        > 0 implies error_in(items, e) by {
        let t = items.skip(1);
        let i = choose|i: int|
            0 <= i < t.len() && #[trigger] t[i] == Err::<(Vec<u8>, Entry), Error>(e);
        assert(items[i + 1] == Err::<(Vec<u8>, Entry), Error>(e));
    }
}

proof fn lemma_without_sorted(q: Pairs, k: Seq<u8>)
    requires
        assoc::sorted_pairs(q),
    ensures
        assoc::sorted_pairs(without(q, k)),
{
    let t = without(q, k);
    if q.len() > 0 && q[0].0 == k {
        assert forall|i: int, j: int| 0 <= i < j < t.len() implies order::key_less(
            #[trigger] t[i].0,
            #[trigger] t[j].0,
        ) by {
            assert(order::key_less(q[i + 1].0, q[j + 1].0));
        }
    }
}

/// A merge starts with nothing given and everything to go.
pub proof fn lemma_merge_start(all: Seq<Pairs>, seqs: Seq<u64>)
    requires
        all_sorted(all),
        seqs.len() == all.len(),
    ensures
        merged(Seq::empty(), all, all, seqs),
{
}

/// Dropping the head of a sorted queue forgets its key only.
proof fn lemma_find_without(q: Pairs, k: Seq<u8>, o: Seq<u8>)
    requires
        assoc::sorted_pairs(q),
        q.len() > 0 ==> order::key_less_eq(k, q[0].0),
    ensures
        assoc::find(without(q, k), o) == (if o == k {
            None
        } else {
            assoc::find(q, o)
        }),
{
    let t = without(q, k);
    lemma_without_sorted(q, k);
    order::lemma_key_irreflexive(k);
    if q.len() > 0 && q[0].0 == k {
        if assoc::has_key(t, o) {
            let i = choose|i: int| 0 <= i < t.len() && (#[trigger] t[i]).0 == o;
            assert(q[i + 1] == t[i]);
            assoc::lemma_find_at(t, i);
            assoc::lemma_find_at(q, i + 1);
            assert(order::key_less(q[0].0, q[i + 1].0));
        } else if assoc::has_key(q, o) && o != k {
            let i = choose|i: int| 0 <= i < q.len() && (#[trigger] q[i]).0 == o;
            assert(t[i - 1] == q[i]);
        }
    } else if o == k && assoc::has_key(q, k) {
        let i = choose|i: int| 0 <= i < q.len() && (#[trigger] q[i]).0 == k;
        if i > 0 {
            assert(order::key_less(q[0].0, q[i].0));
            order::lemma_key_transitive(k, q[0].0, q[i].0);
        }
    }
}

/// Each step of a merge gives the newest entry of the smallest key that is
/// left: the output stays sorted and without duplicates, and what it holds
/// is the newest of all.
pub proof fn lemma_merge_step(
    out: Pairs,
    qs: Seq<Pairs>,
    all: Seq<Pairs>,
    seqs: Seq<u64>,
    w: int,
    next: Seq<Pairs>,
)
    requires
        merged(out, qs, all, seqs),
        wins(qs, seqs, w),
        next.len() == qs.len(),
        forall|i: int| 0 <= i < qs.len() ==> #[trigger] next[i] == without(qs[i], qs[w][0].0),
    ensures
        merged(out.push(qs[w][0]), next, all, seqs),
{
    let (k, e) = qs[w][0];
    let t = out.push((k, e));
    assert(qs[w][0] == (k, e));
    if out.len() > 0 {
        assert(order::key_less(out.last().0, qs[w][0].0));
    }
    assoc::lemma_find_push(out, (k, e), k);
    assoc::lemma_find_at(qs[w], 0);
    order::lemma_key_irreflexive(k);
    assert(assoc::find(qs[w], k) == (if assoc::has_key(out, k) {
        None
    } else {
        assoc::find(all[w], k)
    }));
    assert(!assoc::has_key(out, k));
    assert(is_newest(all, seqs, k, e)) by {
        assert(assoc::find(all[w], k) == Some(e));
        assert forall|j: int|
            0 <= j < all.len() && assoc::has_key(#[trigger] all[j], k) implies seqs[j] <= seqs[w] by {
            assert(assoc::find(qs[j], k) == assoc::find(all[j], k));
            assert(assoc::has_key(qs[j], k));
            let p = choose|p: int| 0 <= p < qs[j].len() && (#[trigger] qs[j][p]).0 == k;
            if p > 0 {
                assert(order::key_less(qs[j][0].0, qs[j][p].0));
                order::lemma_key_total(k, qs[j][0].0);
                assert(false);
            }
        }
    }
    assert forall|o: Seq<u8>| #[trigger] assoc::find(t, o) == (if o == k {
        Some(e)
    } else {
        assoc::find(out, o)
    }) by {
        assoc::lemma_find_push(out, (k, e), o);
    }
    assert forall|o: Seq<u8>| #![trigger assoc::find(t, o)] assoc::has_key(t, o) implies is_newest(
        all,
        seqs,
        o,
        assoc::find(t, o)->0,
    ) by {
        if o != k {
            assert(assoc::find(t, o) == assoc::find(out, o));
            assert(assoc::has_key(out, o));
        }
    }
    assert forall|i: int| 0 <= i < next.len() implies assoc::sorted_pairs(#[trigger] next[i]) by {
        lemma_without_sorted(qs[i], k);
    }
    assert forall|i: int, j: int|
        0 <= i < next.len() && 0 <= j < next[i].len() && t.len() > 0 implies order::key_less(
        t.last().0,
        (#[trigger] next[i][j]).0,
    ) by {
        let q = qs[i];
        assert(next[i] == without(q, k));
        if q[0].0 == k {
            assert(next[i][j] == q[j + 1]);
            assert(order::key_less(q[0].0, q[j + 1].0));
        } else {
            assert(next[i][j] == q[j]);
            assert(order::key_less(k, q[0].0));
            if j > 0 {
                assert(order::key_less(q[0].0, q[j].0));
                order::lemma_key_transitive(k, q[0].0, q[j].0);
            }
        }
    }
    assert forall|i: int, o: Seq<u8>| 0 <= i < next.len() implies #[trigger] assoc::find(
        next[i],
        o,
    ) == (if assoc::has_key(t, o) {
        None
    } else {
        assoc::find(all[i], o)
    }) by {
        lemma_find_without(qs[i], k, o);
        assert(next[i] == without(qs[i], k));
        assert(assoc::find(t, o) is Some == assoc::has_key(t, o));
        assert(assoc::find(out, o) is Some == assoc::has_key(out, o));
        assert(assoc::find(qs[i], o) == (if assoc::has_key(out, o) {
            None
        } else {
            assoc::find(all[i], o)
        }));
    }
}

/// A merge that has nothing left to go holds every key of the sources once,
/// with its newest entry.
pub proof fn lemma_merge_done(out: Pairs, qs: Seq<Pairs>, all: Seq<Pairs>, seqs: Seq<u64>, k: Seq<u8>)
    requires
        merged(out, qs, all, seqs),
        all_empty(qs),
    ensures
        assoc::has_key(out, k) == some_holds(all, k),
        assoc::has_key(out, k) ==> is_newest(all, seqs, k, assoc::find(out, k)->0),
{
    if some_holds(all, k) {
        let i = choose|i: int| 0 <= i < all.len() && assoc::has_key(#[trigger] all[i], k);
        assert(assoc::find(qs[i], k) == (if assoc::has_key(out, k) {
            None
        } else {
            assoc::find(all[i], k)
        }));
        assert(qs[i].len() == 0);
        assert(!assoc::has_key(qs[i], k));
    }
    if assoc::has_key(out, k) {
        assert(assoc::find(out, k) is Some);
        assert(is_newest(all, seqs, k, assoc::find(out, k)->0));
        let i = choose|i: int|
            0 <= i < all.len() && assoc::find(#[trigger] all[i], k) == Some(
                assoc::find(out, k)->0,
            ) && forall|j: int|
                0 <= j < all.len() && assoc::has_key(#[trigger] all[j], k) ==> seqs[j] <= seqs[i];
        assert(assoc::has_key(all[i], k));
    }
}

/// With distinct sequence numbers the newest entry of a key is unique.
pub proof fn lemma_newest_unique(
    qs: Seq<Pairs>,
    seqs: Seq<u64>,
    k: Seq<u8>,
    a: EntryView,
    b: EntryView,
)
    requires
        qs.len() == seqs.len(),
        forall|i: int, j: int|
            0 <= i < j < seqs.len() ==> #[trigger] seqs[i] != #[trigger] seqs[j],
        is_newest(qs, seqs, k, a),
        is_newest(qs, seqs, k, b),
    ensures
        a == b,
{
    let i = choose|i: int|
        0 <= i < qs.len() && assoc::find(#[trigger] qs[i], k) == Some(a) && forall|j: int|
            0 <= j < qs.len() && assoc::has_key(#[trigger] qs[j], k) ==> seqs[j] <= seqs[i];
    let l = choose|i: int|
        0 <= i < qs.len() && assoc::find(#[trigger] qs[i], k) == Some(b) && forall|j: int|
            0 <= j < qs.len() && assoc::has_key(#[trigger] qs[j], k) ==> seqs[j] <= seqs[i];
    assert(assoc::has_key(qs[i], k));
    assert(assoc::has_key(qs[l], k));
    if i < l {
        assert(seqs[i] != seqs[l]);
    } else if l < i {
        assert(seqs[l] != seqs[i]);
    }
}

} // verus!
