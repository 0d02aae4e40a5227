//! The state of an engine as mathematics: what a key holds, given the
//! memtable and the tables, and what a set of files stands for.

use crate::assoc;
use crate::engine::names;
use crate::io;
use crate::memtable;
use crate::memtable::EntryView;
use crate::order;
use crate::sstable::bloom::BloomFilter;
use crate::sstable::layout;
use crate::sstable::layout::{Pairs, Scan, TableView};
use crate::sstable::roundtrip;
use crate::sstable::writer;
use crate::wal::log;
use crate::wal::record;
use crate::wal::record::{RecordKind, RecordView};
use vstd::prelude::*;

verus! {

/// The first of the tables that holds `k` decides.
pub open spec fn newest(tables: Seq<Pairs>, k: Seq<u8>) -> Option<EntryView>
    decreases tables.len(),
{
    if tables.len() == 0 {
        None
    } else if assoc::has_key(tables[0], k) {
        assoc::find(tables[0], k)
    } else {
        newest(tables.skip(1), k)
    }
}

/// What `k` holds: the memtable decides, then the tables, newest first.
pub open spec fn entry_in(mem: Pairs, tables: Seq<Pairs>, k: Seq<u8>) -> Option<EntryView> {
    match assoc::find(mem, k) {
        Some(e) => Some(e),
        None => newest(tables, k),
    }
}

/// An entry as a reader sees it: a tombstone is as good as nothing.
pub open spec fn unmasked(e: Option<EntryView>) -> Option<EntryView> {
    if e == Some(EntryView::Tombstone) {
        None
    } else {
        e
    }
}

/// The bytes that a reader sees of an entry.
pub open spec fn shown(e: Option<EntryView>) -> Option<Seq<u8>> {
    match e {
        Some(e) => e.visible(),
        None => None,
    }
}

/// The entry that a record sets.
pub open spec fn record_entry(r: RecordView) -> EntryView {
    match r.kind {
        RecordKind::Put => EntryView::Put(r.value),
        RecordKind::Vector => EntryView::Vector(r.value),
        RecordKind::Delete => EntryView::Tombstone,
    }
}

/// The entry for `k` after the records `recs`: that of its last record.
pub open spec fn replayed(recs: Seq<RecordView>, k: Seq<u8>) -> Option<EntryView>
    decreases recs.len(),
{
    if recs.len() == 0 {
        None
    } else if recs.last().key == k {
        Some(record_entry(recs.last()))
    } else {
        replayed(recs.drop_last(), k)
    }
}

/// The running size of a memtable after the records `recs`.
pub open spec fn replayed_size(recs: Seq<RecordView>) -> int
    decreases recs.len(),
{
    if recs.len() == 0 {
        0
    } else {
        let before = recs.drop_last();
        let r = recs.last();
        memtable::size_after(replayed_size(before), replayed(before, r.key), r.key, record_entry(r))
    }
}

/// `mem` is what the records `recs` leave behind.
pub open spec fn replays_to(recs: Seq<RecordView>, mem: Pairs) -> bool {
    &&& assoc::sorted_pairs(mem)
    &&& forall|k: Seq<u8>| #[trigger] assoc::find(mem, k) == replayed(recs, k)
}

/// An entry that the log and a table take.
pub open spec fn storable(k: Seq<u8>, e: EntryView) -> bool {
    &&& 0 < k.len() <= record::MAX_KEY_LEN
    &&& e.payload().len() <= record::MAX_VALUE_LEN
    &&& layout::entry_fits(k, e)
}

/// All entries of `s` can go into a table.
pub open spec fn all_storable(s: Pairs) -> bool {
    forall|i: int| 0 <= i < s.len() ==> storable((#[trigger] s[i]).0, s[i].1)
}

/// The index of the table `b`.
pub open spec fn index_in(b: Seq<u8>) -> Seq<layout::IndexView> {
    layout::table_index(b)->0
}

/// The table `b` ends before one of its blocks does.
pub open spec fn has_lost(b: Seq<u8>) -> bool {
    exists|j: int| 0 <= j < index_in(b).len() && layout::is_lost(b, #[trigger] index_in(b)[j])
}

/// The entries of the table `b`, up to the first damage.
pub open spec fn pairs_in(b: Seq<u8>) -> Pairs {
    layout::entries_from(b, index_in(b), 0)
}

/// The outcome of a lookup that finds `e`.
pub open spec fn scan_of(e: Option<EntryView>) -> Scan {
    match e {
        Some(e) => Scan::Hit(e),
        None => Scan::Missing,
    }
}

/// A lookup of any key in `b`, opened as `t`, finds what a walk gives for it.
pub open spec fn lookups_agree(b: Seq<u8>, t: TableView) -> bool {
    forall|key: Seq<u8>, p: int|
        layout::is_boundary(t.index, key, p) ==> #[trigger] layout::lookup(b, t, key, p)
            == scan_of(assoc::find(pairs_in(b), key))
}

/// `b` is a table without damage: its entries ascend and fit, and lookups and
/// walks agree.
pub open spec fn is_sound(b: Seq<u8>) -> bool {
    &&& layout::is_table(b)
    &&& assoc::sorted_pairs(pairs_in(b))
    &&& layout::all_fit(pairs_in(b))
    &&& layout::sound_from(b, index_in(b), 0)
    &&& forall|t: TableView| #[trigger] layout::opens_as(b, t) ==> lookups_agree(b, t)
}

/// The table `b` has a filter for `keys` keys with `bits` bits for each; none
/// for zero bits.
pub open spec fn is_filtered(b: Seq<u8>, keys: int, bits: int) -> bool {
    exists|f: Option<BloomFilter>|
        b == #[trigger] layout::table_bytes(pairs_in(b), f) && writer::sized_for(f, keys, bits)
}

/// The entries of the tables `names`.
pub open spec fn tables_in(files: io::Files, names: Seq<Seq<u8>>) -> Seq<Pairs> {
    names.map_values(|n: Seq<u8>| pairs_in(files[n]))
}

/// Without the entries that are tombstones.
pub open spec fn without_tombstones(s: Pairs) -> Pairs
    decreases s.len(),
{
    if s.len() == 0 {
        s
    } else {
        let before = without_tombstones(s.drop_last());
        if s.last().1 is Tombstone {
            before
        } else {
            before.push(s.last())
        }
    }
}

/// `n` is the table `id` at `level`.
pub open spec fn is_sst(files: io::Files, n: Seq<u8>, level: u8, id: u64) -> bool {
    &&& files.contains_key(n)
    &&& names::extension(n) == Some(names::sst_ext())
    &&& names::parse_sst(n) == Some((level, id))
}

/// A table: its id and its name.
pub type TableRef = (u64, Seq<u8>);

/// The table `id` is newer than what the bottom level `l1` holds.
pub open spec fn above(l1: Seq<TableRef>, id: u64) -> bool {
    l1.len() == 0 || id > l1[0].0
}

/// The live tables of `files` are `l0`, newest first, and `l1`: of the bottom
/// level the one with the highest id, of the top level those that are newer.
/// `next` is the first id that no table has.
pub open spec fn discovered(
    files: io::Files,
    l0: Seq<TableRef>,
    l1: Seq<TableRef>,
    next: int,
) -> bool {
    &&& l1.len() <= 1
    &&& l1.len() == 1 ==> is_sst(files, l1[0].1, 1, l1[0].0)
    &&& forall|n: Seq<u8>, id: u64| #[trigger]
        is_sst(files, n, 1, id) ==> l1.len() == 1 && id <= l1[0].0
    &&& forall|i: int|
        0 <= i < l0.len() ==> is_sst(files, (#[trigger] l0[i]).1, 0, l0[i].0) && above(
            l1,
            l0[i].0,
        )
    &&& forall|n: Seq<u8>, id: u64| #[trigger]
        is_sst(files, n, 0, id) && above(l1, id) ==> l0.contains((id, n))
    &&& forall|i: int, j: int|
        0 <= i < j < l0.len() ==> (#[trigger] l0[i]).0 >= (#[trigger] l0[j]).0 && l0[i].1
            != l0[j].1
    &&& forall|n: Seq<u8>, level: u8, id: u64| #[trigger] is_sst(files, n, level, id) ==> id < next
    &&& next == 0 || exists|n: Seq<u8>, level: u8, id: u64|
        #[trigger] is_sst(files, n, level, id) && id == next - 1
}

/// The names of the tables `refs`.
pub open spec fn names_of(refs: Seq<TableRef>) -> Seq<Seq<u8>> {
    refs.map_values(|t: TableRef| t.1)
}

/// There is a log in `files`, and not just a part of its header.
pub open spec fn has_log(files: io::Files) -> bool {
    files.contains_key(names::wal_name()) && !log::is_cut(files[names::wal_name()])
}

/// The records of the log in `files`.
pub open spec fn log_records(files: io::Files) -> Seq<RecordView> {
    if has_log(files) {
        log::records(files[names::wal_name()].skip(log::FILE_HEADER_LEN as int))
    } else {
        Seq::empty()
    }
}

/// The log in `files`, if there is one, can be replayed.
pub open spec fn log_readable(files: io::Files) -> bool {
    has_log(files) ==> {
        let b = files[names::wal_name()];
        log::header().is_prefix_of(b) && log::ends_clean(b.skip(log::FILE_HEADER_LEN as int))
    }
}

/// What `k` holds in the state that `files` stand for, with the live tables
/// `l0` and `l1`.
pub open spec fn recovered(
    files: io::Files,
    l0: Seq<TableRef>,
    l1: Seq<TableRef>,
    k: Seq<u8>,
) -> Option<EntryView> {
    let e = replayed(log_records(files), k);
    unmasked(
        if e is Some {
            e
        } else {
            newest(tables_in(files, names_of(l0 + l1)), k)
        },
    )
}

/// `files` stand for the state `view`: whoever opens them finds a log and
/// tables that can be read, and for each key what `view` gives for it.
pub open spec fn stands_for(files: io::Files, view: spec_fn(Seq<u8>) -> Option<EntryView>) -> bool {
    &&& log_readable(files)
    &&& forall|l0: Seq<TableRef>, l1: Seq<TableRef>, next: int| #[trigger]
        discovered(files, l0, l1, next) ==> {
            &&& forall|i: int|
                0 <= i < (l0 + l1).len() ==> layout::is_table(files[(#[trigger] (l0 + l1)[i]).1])
            &&& forall|k: Seq<u8>| #[trigger] recovered(files, l0, l1, k) == view(k)
        }
}

/// A record that is replayed last decides over its key only.
pub proof fn lemma_replayed_push(recs: Seq<RecordView>, r: RecordView, k: Seq<u8>)
    ensures
        replayed(recs.push(r), k) == (if k == r.key {
            Some(record_entry(r))
        } else {
            replayed(recs, k)
        }),
{
    assert(recs.push(r).drop_last() =~= recs);
}

/// The front of the tables decides first.
pub proof fn lemma_newest_concat(a: Seq<Pairs>, b: Seq<Pairs>, k: Seq<u8>)
    ensures
        newest(a + b, k) == (match newest(a, k) {
            Some(e) => Some(e),
            None => newest(b, k),
        }),
    decreases a.len(),
{
    if a.len() == 0 {
        assert(a + b =~= b);
    } else {
        lemma_newest_concat(a.skip(1), b, k);
        assert((a + b).skip(1) =~= a.skip(1) + b);
        assert((a + b)[0] == a[0]);
    }
}

/// A table in front decides over the keys that it holds.
pub proof fn lemma_newest_front(t: Pairs, b: Seq<Pairs>, k: Seq<u8>)
    ensures
        newest(seq![t] + b, k) == (match assoc::find(t, k) {
            Some(e) => Some(e),
            None => newest(b, k),
        }),
{
    let s = seq![t] + b;
    assert(s.skip(1) =~= b);
    assert(s[0] == t);
}

/// A key that is found somewhere is found in some table, and in none before.
pub proof fn lemma_newest_at(tables: Seq<Pairs>, k: Seq<u8>)
    ensures
        match newest(tables, k) {
            Some(e) => exists|i: int|
                0 <= i < tables.len() && assoc::find(#[trigger] tables[i], k) == Some(e)
                    && forall|j: int| 0 <= j < i ==> !assoc::has_key(#[trigger] tables[j], k),
            None => forall|i: int| 0 <= i < tables.len() ==> !assoc::has_key(#[trigger] tables[i], k),
        },
    decreases tables.len(),
{
    if tables.len() > 0 {
        let rest = tables.skip(1);
        lemma_newest_at(rest, k);
        if assoc::has_key(tables[0], k) {
            assert(assoc::find(tables[0], k) == newest(tables, k));
        } else if newest(rest, k) is Some {
            let e = newest(rest, k)->0;
            let i = choose|i: int|
                0 <= i < rest.len() && assoc::find(#[trigger] rest[i], k) == Some(e) && forall|
                    j: int,
                |
                    0 <= j < i ==> !assoc::has_key(#[trigger] rest[j], k);
            assert(tables[i + 1] == rest[i]);
            assert forall|j: int| 0 <= j < i + 1 implies !assoc::has_key(
                #[trigger] tables[j],
                k,
            ) by {
                if j > 0 {
                    assert(tables[j] == rest[j - 1]);
                }
            }
        } else {
            assert forall|i: int| 0 <= i < tables.len() implies !assoc::has_key(
                #[trigger] tables[i],
                k,
            ) by {
                if i > 0 {
                    assert(tables[i] == rest[i - 1]);
                }
            }
        }
    }
}

/// Dropping tombstones keeps the order and forgets the deleted keys only.
pub proof fn lemma_without_tombstones(s: Pairs, k: Seq<u8>)
    requires
        assoc::sorted_pairs(s),
    ensures
        assoc::sorted_pairs(without_tombstones(s)),
        assoc::find(without_tombstones(s), k) == unmasked(assoc::find(s, k)),
        without_tombstones(s).len() > 0 ==> s.len() > 0 && (without_tombstones(s).last() == s.last()
            || order::key_less(without_tombstones(s).last().0, s.last().0)),
    decreases s.len(),
{
    if s.len() > 0 {
        let d = s.drop_last();
        assoc::lemma_find_drop_last(s, k);
        lemma_without_tombstones(d, k);
        let t = without_tombstones(d);
        if d.len() > 0 {
            assert(order::key_less(s[s.len() - 2].0, s[s.len() - 1].0));
            if t.len() > 0 {
                if t.last() != d.last() {
                    order::lemma_key_transitive(t.last().0, d.last().0, s.last().0);
                }
            }
        }
        assoc::lemma_find_at(s, s.len() - 1);
        if !(s.last().1 is Tombstone) {
            assoc::lemma_find_push(t, s.last(), k);
        }
    }
}

/// A table that was written is sound and holds what was written.
pub proof fn lemma_written_is_sound(
    s: Pairs,
    f: Option<BloomFilter>,
)
    requires
        roundtrip::writable(s, f),
    ensures
        is_sound(layout::table_bytes(s, f)),
        pairs_in(layout::table_bytes(s, f)) == s,
{
    let b = layout::table_bytes(s, f);
    let t = TableView { index: layout::index_of(layout::blocks_of(s)), filter: f };
    roundtrip::lemma_table_opens(s, f, t);
    roundtrip::lemma_table_walk(s, f, t);
    assert(t.index == index_in(b));
    assert forall|t: TableView| #[trigger] layout::opens_as(b, t) implies lookups_agree(b, t) by {
        assert forall|key: Seq<u8>, p: int| layout::is_boundary(t.index, key, p) implies
            #[trigger] layout::lookup(b, t, key, p) == scan_of(assoc::find(pairs_in(b), key)) by {
            roundtrip::lemma_table_get(s, f, t, key, p);
        }
    }
}

} // verus!
