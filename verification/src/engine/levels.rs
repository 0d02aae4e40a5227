//! The live tables of an engine, by level, and how they are found on disk.

use crate::assoc;
use crate::codec::copy_bytes;
use crate::engine::state;
use crate::engine::state::TableRef;
use crate::error::{corruption, Error, Result};
use crate::io;
use crate::io::Io;
use crate::order;
use crate::order::{order_keys, KeyOrder};
use crate::sstable::layout;
use crate::sstable::layout::{Pairs, Scan, TableView};
use crate::sstable::merge;
use crate::sstable::merge::Item;
use crate::sstable::reader;
use crate::sstable::reader::{SsTableLookup, SsTableReader};
use vstd::prelude::*;

verus! {

/// An open table.
#[derive(Debug)]
pub struct SsTableEntry {
    /// The number in the name of the file.
    id: u64,
    reader: SsTableReader,
}

impl SsTableEntry {
    /// Its id and its name.
    pub closed spec fn table_ref(&self) -> TableRef {
        (self.id, self.reader.file_name())
    }

    /// What was loaded.
    pub closed spec fn loaded(&self) -> TableView {
        self.reader.table()
    }

    /// The table is open on its file in `files`.
    pub closed spec fn open_in(&self, files: io::Files) -> bool {
        &&& self.reader.wf()
        &&& files.contains_key(self.reader.file_name())
        &&& layout::opens_as(files[self.reader.file_name()], self.reader.table())
    }

    /// Opens the table `id` in the file `name`.
    pub(crate) fn open<I: Io>(io: &I, id: u64, name: &[u8]) -> (r: Result<SsTableEntry>)
        ensures
            match r {
                Ok(t) => t.open_in(io.files()) && t.table_ref() == (id, name@),
                Err(Error::Corruption(_)) => io.files().contains_key(name@) && (!layout::is_table(
                    io.files()[name@],
                ) || io.files()[name@].len() > usize::MAX),
                Err(e) => e is Io && (io.is_reliable() ==> !io.files().contains_key(name@)),
            },
    {
        match SsTableReader::open(io, name) {
            Ok(reader) => Ok(SsTableEntry { id, reader }),
            Err(e) => Err(e),
        }
    }

    /// Its id.
    pub(crate) fn id(&self) -> (id: u64)
        ensures
            id == self.table_ref().0,
    {
        self.id
    }

    /// The name of its file.
    pub(crate) fn file(&self) -> (n: Vec<u8>)
        ensures
            n@ == self.table_ref().1,
    {
        self.reader.file()
    }

    /// Number of data blocks.
    pub(crate) fn block_count(&self) -> (n: usize)
        ensures
            n == self.loaded().index.len(),
    {
        self.reader.block_count()
    }

    /// Looks up `key`.
    fn get<I: Io>(&self, io: &I, key: &[u8]) -> (r: Result<SsTableLookup>)
        requires
            self.open_in(io.files()),
        ensures
            ({
                let n = self.table_ref().1;
                match r {
                    Ok(l) => exists|s: Scan|
                        reader::reports(l, s) && #[trigger] may_give(
                            io.files(),
                            n,
                            self.loaded(),
                            key@,
                            s,
                        ),
                    Err(Error::Corruption(_)) => may_give(
                        io.files(),
                        n,
                        self.loaded(),
                        key@,
                        Scan::Damaged,
                    ),
                    Err(e) => e is Io && (io.is_reliable() ==> may_give(
                        io.files(),
                        n,
                        self.loaded(),
                        key@,
                        Scan::Lost,
                    )),
                }
            }),
    {
        let ghost b = io.files()[self.reader.file_name()];
        let r = self.reader.get(io, key);
        proof {
            let p = choose|p: int|
                layout::is_boundary(self.reader.table().index, key@, p) && {
                    let s = #[trigger] layout::lookup(b, self.reader.table(), key@, p);
                    match r {
                        Ok(l) => reader::reports(l, s),
                        Err(Error::Corruption(_)) => s is Damaged,
                        Err(e) => e is Io && (io.is_reliable() ==> s is Lost),
                    }
                };
            let s = layout::lookup(b, self.reader.table(), key@, p);
            assert(may_give(io.files(), self.table_ref().1, self.loaded(), key@, s));
        }
        r
    }

    /// The entries of the table, with the error that ends the walk, if any.
    /// A key out of order is such an error.
    pub(crate) fn read_all<I: Io>(&self, io: &I) -> (items: Vec<Item>)
        requires
            self.open_in(io.files()),
        ensures
            reads(io.files()[self.table_ref().1], items@),
            io.is_reliable() && state::is_sound(io.files()[self.table_ref().1]) ==> !merge::fails(
                items@,
            ),
            io.is_reliable() ==> io_means_lost(io.files()[self.table_ref().1], items@),
    {
        let ghost b = io.files()[self.table_ref().1];
        let ghost all = state::pairs_in(b);
        let mut items: Vec<Item> = Vec::new();
        let mut it = self.reader.iter();
        let mut last: Option<Vec<u8>> = None;
        proof {
            assert(all.take(0) =~= Seq::empty());
            assert(it.rest(io.files()) == all);
            assert(all.skip(0) =~= all);
        }
        loop
            invariant_except_break
                it.wf(),
                it.reader() == &self.reader,
                b == io.files()[self.reader.file_name()],
                self.reader.table().index == state::index_in(b),
                all == state::pairs_in(b),
                items@.len() <= all.len(),
                !merge::fails(items@),
                io_means_lost(b, items@),
                merge::good(items@) == all.take(items@.len() as int),
                it.rest(io.files()) == all.skip(items@.len() as int),
                it.sound(io.files()) == layout::sound_from(b, state::index_in(b), 0),
                match last {
                    None => items@.len() == 0,
                    Some(k) => items@.len() > 0 && k@ == all[items@.len() - 1].0,
                },
                assoc::sorted_pairs(merge::good(items@)),
                layout::all_fit(merge::good(items@)),
                io.files().contains_key(self.reader.file_name()),
            ensures
                reads(b, items@),
                io.is_reliable() && state::is_sound(b) ==> !merge::fails(items@),
                io.is_reliable() ==> io_means_lost(b, items@),
            decreases all.len() - items@.len(),
        {
            let ghost n = items@.len() as int;
            let ghost before = items@;
            let ghost at = it;
            match it.next(io) {
                None => {
                    proof {
                        assert(all.take(n) =~= all);
                    }
                    break ;
                },
                Some(Ok((key, entry))) => {
                    let ghost k = key@;
                    let ghost e = entry@;
                    proof {
                        assert(all[n] == (k, e));
                    }
                    let in_order = match &last {
                        None => true,
                        Some(prev) => match order_keys(prev.as_slice(), key.as_slice()) {
                            KeyOrder::Before => true,
                            _ => false,
                        },
                    };
                    if in_order {
                        last = Some(copy_bytes(key.as_slice()));
                        items.push(Ok((key, entry)));
                        proof {
                            assert(items@.drop_last() =~= before);
                            lemma_good_push_ok(before, items@);
                            assert(all.take(n + 1) =~= all.take(n).push((k, e)));
                            assoc::lemma_find_push(all.take(n), (k, e), k);
                            assert(all.skip(n).skip(1) =~= all.skip(n + 1));
                        }
                    } else {
                        let e = corruption("SSTable keys are not in ascending order");
                        items.push(Err(e));
                        proof {
                            assert(items@.drop_last() =~= before);
                            lemma_good_push_err(before, items@);
                            if state::is_sound(b) {
                                assert(order::key_less(all[n - 1].0, all[n].0));
                                order::lemma_key_total(all[n - 1].0, all[n].0);
                            }
                            assert(all.take(n).is_prefix_of(all));
                        }
                        break ;
                    }
                },
                Some(Err(e)) => {
                    proof {
                        if io.is_reliable() && e is Io {
                            at.lemma_lost(io.files());
                            let index = self.reader.table().index;
                            let j = choose|j: int|
                                0 <= j < index.len() && layout::is_lost(b, #[trigger] index[j]);
                            assert(state::index_in(b)[j] == index[j]);
                        }
                    }
                    items.push(Err(e));
                    proof {
                        assert(items@.drop_last() =~= before);
                        lemma_good_push_err(before, items@);
                        assert(all.take(n).is_prefix_of(all));
                    }
                    break ;
                },
            }
        }
        items
    }
}

/// Where reading failed in `items`, the table `b` ends too early.
pub open spec fn io_means_lost(b: Seq<u8>, items: Seq<Item>) -> bool {
    forall|j: int|
        0 <= j < items.len() ==> ((#[trigger] items[j]) matches Err(e) ==> (e is Io
            ==> state::has_lost(b)))
}

/// `items` are the entries of the table `b` up to an error: they ascend and
/// fit; without an error they are all there, and the table has no damage. In
/// a sound table only reading can fail.
pub open spec fn reads(b: Seq<u8>, items: Seq<Item>) -> bool {
    &&& assoc::sorted_pairs(merge::good(items))
    &&& layout::all_fit(merge::good(items))
    &&& merge::good(items).is_prefix_of(state::pairs_in(b))
    &&& !merge::fails(items) ==> merge::good(items) == state::pairs_in(b) && layout::sound_from(
        b,
        state::index_in(b),
        0,
    )
    &&& forall|j: int|
        0 <= j < items.len() ==> ((#[trigger] items[j]) matches Err(e) ==> (e is Io
            || e is Corruption && !state::is_sound(b)))
}

pub(crate) proof fn lemma_good_push_ok(before: Seq<Item>, after: Seq<Item>)
    requires
        !merge::fails(before),
        after.len() == before.len() + 1,
        after.drop_last() == before,
        after.last() is Ok,
    ensures
        !merge::fails(after),
        merge::good(after) == merge::good(before).push(
            ((after.last()->Ok_0).0@, (after.last()->Ok_0).1@),
        ),
    decreases before.len(),
{
    assert forall|i: int| 0 <= i < after.len() implies (#[trigger] after[i]) is Ok by {
        if i < before.len() {
            assert(after[i] == before[i]);
        }
    }
    if before.len() == 0 {
        reveal_with_fuel(merge::good, 2);
        assert(after.skip(1) =~= Seq::empty());
        assert(merge::good(after) =~= merge::good(before).push(
            ((after.last()->Ok_0).0@, (after.last()->Ok_0).1@),
        ));
    } else {
        let b = before.skip(1);
        let a = after.skip(1);
        assert(after[0] == before[0]);
        assert(a.drop_last() =~= b);
        assert(!merge::fails(b)) by {
            if merge::fails(b) {
                let i = choose|i: int| 0 <= i < b.len() && (#[trigger] b[i]) is Err;
                assert(before[i + 1] is Err);
            }
        }
        lemma_good_push_ok(b, a);
        assert(before[0] is Ok);
        assert(merge::good(after) =~= merge::good(before).push(
            ((after.last()->Ok_0).0@, (after.last()->Ok_0).1@),
        ));
    }
}

proof fn lemma_good_push_err(before: Seq<Item>, after: Seq<Item>)
    requires
        !merge::fails(before),
        after.len() == before.len() + 1,
        after.drop_last() == before,
        after.last() is Err,
    ensures
        merge::fails(after),
        merge::good(after) == merge::good(before),
        forall|i: int| 0 <= i < before.len() ==> (#[trigger] after[i]) is Ok,
    decreases before.len(),
{
    assert(after[after.len() - 1] is Err);
    assert forall|i: int| 0 <= i < before.len() implies (#[trigger] after[i]) is Ok by {
        assert(after[i] == before[i]);
    }
    if before.len() > 0 {
        let b = before.skip(1);
        let a = after.skip(1);
        assert(after[0] == before[0]);
        assert(a.drop_last() =~= b);
        assert(!merge::fails(b)) by {
            if merge::fails(b) {
                let i = choose|i: int| 0 <= i < b.len() && (#[trigger] b[i]) is Err;
                assert(before[i + 1] is Err);
            }
        }
        lemma_good_push_err(b, a);
    }
}

/// The live tables, by level.
#[derive(Debug)]
pub struct LevelState {
    /// Recent flushes, newest first. Their key ranges may overlap.
    l0: Vec<SsTableEntry>,
    /// The bottom level: the output of the last compaction, or nothing.
    l1: Vec<SsTableEntry>,
}

/// Ids and names of tables.
pub open spec fn refs_of(s: Seq<SsTableEntry>) -> Seq<TableRef> {
    s.map_values(|t: SsTableEntry| t.table_ref())
}

/// All of `s` are open on their files in `files`.
pub open spec fn all_open(s: Seq<SsTableEntry>, files: io::Files) -> bool {
    forall|i: int| 0 <= i < s.len() ==> (#[trigger] s[i]).open_in(files)
}

/// A lookup of `key` in the table `t`, which is in the file `n`, may give `s`.
pub open spec fn may_give(
    files: io::Files,
    n: Seq<u8>,
    t: TableView,
    key: Seq<u8>,
    s: Scan,
) -> bool {
    exists|p: int|
        layout::is_boundary(t.index, key, p) && #[trigger] layout::lookup(files[n], t, key, p) == s
}

impl LevelState {
    /// The tables of the top level, newest first.
    pub closed spec fn refs0(&self) -> Seq<TableRef> {
        refs_of(self.l0@)
    }

    /// The tables of the bottom level.
    pub closed spec fn refs1(&self) -> Seq<TableRef> {
        refs_of(self.l1@)
    }

    /// All tables, newest first.
    pub open spec fn refs(&self) -> Seq<TableRef> {
        self.refs0() + self.refs1()
    }

    /// What was loaded of table `i`, newest first.
    pub closed spec fn loaded(&self, i: int) -> TableView {
        (self.l0@ + self.l1@)[i].loaded()
    }

    /// All tables are open on their files in `files`.
    pub closed spec fn open_in(&self, files: io::Files) -> bool {
        all_open(self.l0@, files) && all_open(self.l1@, files)
    }

    /// A lookup of `key` in table `i` may give `s`.
    pub open spec fn may_give(&self, files: io::Files, key: Seq<u8>, i: int, s: Scan) -> bool {
        may_give(files, self.refs()[i].1, self.loaded(i), key, s)
    }

    /// Table `i` decides over `key`: a lookup in it may give `s`, and in the
    /// newer tables nothing.
    pub open spec fn decides(&self, files: io::Files, key: Seq<u8>, i: int, s: Scan) -> bool {
        &&& 0 <= i < self.refs().len()
        &&& !(s is Missing)
        &&& self.may_give(files, key, i, s)
        &&& forall|j: int| 0 <= j < i ==> #[trigger] self.may_give(files, key, j, Scan::Missing)
    }

    /// Their entries.
    pub open spec fn tables(&self, files: io::Files) -> Seq<Pairs> {
        state::tables_in(files, state::names_of(self.refs()))
    }

    /// No table has damage.
    pub open spec fn is_sound(&self, files: io::Files) -> bool {
        forall|i: int|
            0 <= i < self.refs().len() ==> state::is_sound(files[(#[trigger] self.refs()[i]).1])
    }

    /// The tables `l0`, newest first, above `l1`.
    pub(crate) fn new(l0: Vec<SsTableEntry>, l1: Vec<SsTableEntry>) -> (l: LevelState)
        ensures
            l.refs0() == refs_of(l0@),
            l.refs1() == refs_of(l1@),
            forall|files: io::Files|
                all_open(l0@, files) && all_open(l1@, files) ==> #[trigger] l.open_in(files),
    {
        LevelState { l0, l1 }
    }

    /// Number of tables of the top level.
    pub(crate) fn len0(&self) -> (n: usize)
        ensures
            n == self.refs0().len(),
    {
        self.l0.len()
    }

    /// Number of tables of the bottom level.
    pub(crate) fn len1(&self) -> (n: usize)
        ensures
            n == self.refs1().len(),
    {
        self.l1.len()
    }

    /// Table `i` of the top level.
    pub(crate) fn entry0(&self, i: usize) -> (t: &SsTableEntry)
        requires
            i < self.refs0().len(),
        ensures
            t.table_ref() == self.refs0()[i as int],
            t.loaded() == self.loaded(i as int),
            forall|files: io::Files| #[trigger] self.open_in(files) ==> t.open_in(files),
    {
        assert(self.loaded(i as int) == self.l0@[i as int].loaded());
        &self.l0[i]
    }

    /// Table `i` of the bottom level.
    pub(crate) fn entry1(&self, i: usize) -> (t: &SsTableEntry)
        requires
            i < self.refs1().len(),
        ensures
            t.table_ref() == self.refs1()[i as int],
            t.loaded() == self.loaded(self.refs0().len() + i),
            forall|files: io::Files| #[trigger] self.open_in(files) ==> t.open_in(files),
    {
        assert(self.loaded(self.l0@.len() + i) == self.l1@[i as int].loaded());
        &self.l1[i]
    }

    /// Puts a flushed table in front.
    pub(crate) fn push_front(&mut self, t: SsTableEntry)
        ensures
            final(self).refs0() == seq![t.table_ref()] + old(self).refs0(),
            final(self).refs1() == old(self).refs1(),
            forall|files: io::Files|
                old(self).open_in(files) && t.open_in(files) ==> #[trigger] final(self).open_in(
                    files,
                ),
    {
        self.l0.insert(0, t);
        proof {
            assert(self.refs0() =~= seq![t.table_ref()] + old(self).refs0());
            assert forall|files: io::Files|
                old(self).open_in(files) && t.open_in(files) implies #[trigger] self.open_in(
                files,
            ) by {
                assert forall|i: int| 0 <= i < self.l0@.len() implies (
                #[trigger] self.l0@[i]).open_in(files) by {
                    if i > 0 {
                        assert(self.l0@[i] == old(self).l0@[i - 1]);
                    }
                }
            }
        }
    }

    /// Replaces all tables by one at the bottom level, or by none.
    pub(crate) fn replace(&mut self, t: Option<SsTableEntry>)
        ensures
            final(self).refs0().len() == 0,
            match t {
                Some(t) => final(self).refs1() == seq![t.table_ref()],
                None => final(self).refs1().len() == 0,
            },
            forall|files: io::Files|
                (t matches Some(t) ==> t.open_in(files)) ==> #[trigger] final(self).open_in(files),
    {
        self.l0 = Vec::new();
        let mut l1: Vec<SsTableEntry> = Vec::new();
        match t {
            Some(t) => {
                l1.push(t);
            },
            None => {},
        }
        self.l1 = l1;
        proof {
            if t is Some {
                assert(self.refs1() =~= seq![t->0.table_ref()]);
            }
        }
    }

    /// Looks `key` up in the tables, newest first. The first that holds it
    /// decides.
    pub(crate) fn get<I: Io>(&self, io: &I, key: &[u8]) -> (r: Result<SsTableLookup>)
        requires
            self.open_in(io.files()),
        ensures
            match r {
                Ok(SsTableLookup::Missing) => forall|j: int|
                    0 <= j < self.refs().len() ==> #[trigger] self.may_give(
                        io.files(),
                        key@,
                        j,
                        Scan::Missing,
                    ),
                Ok(l) => exists|i: int, s: Scan|
                    reader::reports(l, s) && #[trigger] self.decides(io.files(), key@, i, s),
                Err(Error::Corruption(_)) => exists|i: int| #[trigger]
                    self.decides(io.files(), key@, i, Scan::Damaged),
                Err(e) => e is Io && (io.is_reliable() ==> exists|i: int| #[trigger]
                    self.decides(io.files(), key@, i, Scan::Lost)),
            },
            self.is_sound(io.files()) ==> match r {
                Ok(l) => reader::reports(
                    l,
                    state::scan_of(state::newest(self.tables(io.files()), key@)),
                ),
                Err(e) => e is Io && !io.is_reliable(),
            },
    {
        let ghost files = io.files();
        let mut i: usize = 0;
        while i < self.l0.len()
            invariant
                i <= self.l0@.len(),
                files == io.files(),
                self.open_in(files),
                forall|j: int| 0 <= j < i ==> #[trigger] self.may_give(files, key@, j, Scan::Missing),
            decreases self.l0@.len() - i,
        {
            let r = self.entry0(i).get(io, key);
            assert(self.refs()[i as int] == self.refs0()[i as int]);
            match r {
                Ok(SsTableLookup::Missing) => {},
                _ => {
                    proof {
                        self.lemma_decided(files, key@, i as int, r, io.is_reliable());
                    }
                    return r;
                },
            }
            i = i + 1;
        }
        let mut i: usize = 0;
        while i < self.l1.len()
            invariant
                i <= self.l1@.len(),
                files == io.files(),
                self.open_in(files),
                forall|j: int|
                    0 <= j < self.refs0().len() + i ==> #[trigger] self.may_give(
                        files,
                        key@,
                        j,
                        Scan::Missing,
                    ),
            decreases self.l1@.len() - i,
        {
            let r = self.entry1(i).get(io, key);
            assert(self.refs()[self.refs0().len() + i] == self.refs1()[i as int]);
            match r {
                Ok(SsTableLookup::Missing) => {},
                _ => {
                    proof {
                        self.lemma_decided(
                            files,
                            key@,
                            self.refs0().len() + i,
                            r,
                            io.is_reliable(),
                        );
                    }
                    return r;
                },
            }
            i = i + 1;
        }
        proof {
            if self.is_sound(files) {
                self.lemma_sound_missing(files, key@);
            }
        }
        Ok(SsTableLookup::Missing)
    }

    /// What the contract of `get` says if table `i` gave `r`.
    proof fn lemma_decided(
        &self,
        files: io::Files,
        key: Seq<u8>,
        i: int,
        r: Result<SsTableLookup>,
        reliable: bool,
    )
        requires
            self.open_in(files),
            0 <= i < self.refs().len(),
            forall|j: int| 0 <= j < i ==> #[trigger] self.may_give(files, key, j, Scan::Missing),
            match r {
                Ok(l) => !(l is Missing) && exists|s: Scan|
                    reader::reports(l, s) && #[trigger] may_give(
                        files,
                        self.refs()[i].1,
                        self.loaded(i),
                        key,
                        s,
                    ),
                Err(Error::Corruption(_)) => self.may_give(files, key, i, Scan::Damaged),
                Err(e) => e is Io && (reliable ==> self.may_give(files, key, i, Scan::Lost)),
            },
        ensures
            match r {
                Ok(l) => exists|i: int, s: Scan|
                    reader::reports(l, s) && #[trigger] self.decides(files, key, i, s),
                Err(Error::Corruption(_)) => exists|i: int| #[trigger]
                    self.decides(files, key, i, Scan::Damaged),
                Err(e) => e is Io && (reliable ==> exists|i: int| #[trigger]
                    self.decides(files, key, i, Scan::Lost)),
            },
            self.is_sound(files) ==> match r {
                Ok(l) => reader::reports(
                    l,
                    state::scan_of(state::newest(self.tables(files), key)),
                ),
                Err(e) => e is Io && !reliable,
            },
    {
        let s = match r {
            Ok(l) => choose|s: Scan|
                reader::reports(l, s) && #[trigger] may_give(
                    files,
                    self.refs()[i].1,
                    self.loaded(i),
                    key,
                    s,
                ),
            Err(Error::Corruption(_)) => Scan::Damaged,
            _ => Scan::Lost,
        };
        if r is Ok || r->Err_0 is Corruption || reliable {
            assert(self.decides(files, key, i, s));
            if self.is_sound(files) {
                self.lemma_sound_hit(files, key, i, s);
            }
        }
    }

    /// In sound tables a lookup gives what a walk gives.
    proof fn lemma_sound_lookup(&self, files: io::Files, key: Seq<u8>, i: int, s: Scan)
        requires
            self.open_in(files),
            self.is_sound(files),
            0 <= i < self.refs().len(),
            self.may_give(files, key, i, s),
        ensures
            s == state::scan_of(assoc::find(self.tables(files)[i], key)),
    {
        let b = files[self.refs()[i].1];
        let t = self.loaded(i);
        let p = choose|p: int|
            layout::is_boundary(t.index, key, p) && #[trigger] layout::lookup(b, t, key, p) == s;
        if i < self.l0@.len() {
            assert(self.l0@[i].open_in(files));
            assert(self.loaded(i) == self.l0@[i].loaded());
            assert(self.refs()[i] == self.l0@[i].table_ref());
        } else {
            let j = i - self.l0@.len();
            assert(self.l1@[j].open_in(files));
            assert(self.loaded(i) == self.l1@[j].loaded());
            assert(self.refs()[i] == self.l1@[j].table_ref());
        }
        assert(state::is_sound(b));
        assert(layout::opens_as(b, t));
        assert(state::lookups_agree(b, t));
        assert(self.tables(files)[i] == state::pairs_in(b));
    }

    proof fn lemma_sound_hit(&self, files: io::Files, key: Seq<u8>, i: int, s: Scan)
        requires
            self.open_in(files),
            self.is_sound(files),
            self.decides(files, key, i, s),
        ensures
            s == state::scan_of(state::newest(self.tables(files), key)),
            !(s is Damaged),
            !(s is Lost),
    {
        let tables = self.tables(files);
        self.lemma_sound_lookup(files, key, i, s);
        assert forall|j: int| 0 <= j < i implies !assoc::has_key(#[trigger] tables[j], key) by {
            assert(self.may_give(files, key, j, Scan::Missing));
            self.lemma_sound_lookup(files, key, j, Scan::Missing);
        }
        state::lemma_newest_at(tables, key);
        assert(assoc::has_key(tables[i], key));
    }

    proof fn lemma_sound_missing(&self, files: io::Files, key: Seq<u8>)
        requires
            self.open_in(files),
            self.is_sound(files),
            forall|j: int|
                0 <= j < self.refs().len() ==> #[trigger] self.may_give(
                    files,
                    key,
                    j,
                    Scan::Missing,
                ),
        ensures
            state::newest(self.tables(files), key) is None,
    {
        let tables = self.tables(files);
        assert forall|j: int| 0 <= j < tables.len() implies !assoc::has_key(
            #[trigger] tables[j],
            key,
        ) by {
            assert(self.may_give(files, key, j, Scan::Missing));
            self.lemma_sound_lookup(files, key, j, Scan::Missing);
        }
        state::lemma_newest_at(tables, key);
    }

    /// Tables stay open while their files stay as they are.
    pub proof fn lemma_open_in(&self, before: io::Files, after: io::Files)
        requires
            self.open_in(before),
            forall|i: int|
                0 <= i < self.refs().len() ==> after.contains_key((#[trigger] self.refs()[i]).1)
                    && after[self.refs()[i].1] == before[self.refs()[i].1],
        ensures
            self.open_in(after),
            self.tables(after) == self.tables(before),
            self.is_sound(before) ==> self.is_sound(after),
    {
        assert forall|i: int| 0 <= i < self.l0@.len() implies (#[trigger] self.l0@[i]).open_in(
            after,
        ) by {
            assert(self.refs()[i] == self.l0@[i].table_ref());
        }
        assert forall|i: int| 0 <= i < self.l1@.len() implies (#[trigger] self.l1@[i]).open_in(
            after,
        ) by {
            assert(self.refs()[self.l0@.len() + i] == self.l1@[i].table_ref());
        }
        assert(self.tables(after) =~= self.tables(before));
    }

    /// The files of open tables are there, and are tables.
    pub proof fn lemma_files(&self, files: io::Files)
        requires
            self.open_in(files),
        ensures
            forall|i: int|
                0 <= i < self.refs().len() ==> files.contains_key((#[trigger] self.refs()[i]).1)
                    && layout::is_table(files[self.refs()[i].1]),
    {
        assert forall|i: int| 0 <= i < self.refs().len() implies files.contains_key(
            (#[trigger] self.refs()[i]).1,
        ) && layout::is_table(files[self.refs()[i].1]) by {
            if i < self.l0@.len() {
                assert(self.l0@[i].open_in(files));
            } else {
                assert(self.l1@[i - self.l0@.len()].open_in(files));
            }
        }
    }
}

} // verus!
