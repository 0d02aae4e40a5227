//! How the live tables are found on disk.
//!
//! Temporary files are left over from a write that did not finish: they are
//! removed. An interrupted compaction may leave several tables at the bottom
//! level, of which the newest holds what the others hold, and older tables at
//! the top level, whose entries are in it too: those are removed as well.
//! Removal is best effort.

use crate::codec::copy_bytes;
use crate::engine::levels;
use crate::engine::levels::{LevelState, SsTableEntry};
use crate::engine::names;
use crate::engine::names::{has_extension, parse_sst_filename, sst_extension, tmp_extension};
use crate::engine::state;
use crate::engine::state::TableRef;
use crate::error::{corruption, Error, Result};
use crate::io;
use crate::io::Io;
use crate::sstable::layout;
use vstd::prelude::*;

verus! {

/// `after` is `before` without some files: temporary ones, and tables that
/// are not among `live`.
pub open spec fn pruned(before: io::Files, after: io::Files, live: Seq<TableRef>) -> bool {
    &&& forall|n: Seq<u8>| #[trigger]
        after.contains_key(n) ==> before.contains_key(n) && after[n] == before[n]
    &&& forall|n: Seq<u8>| #[trigger]
        before.contains_key(n) && !after.contains_key(n) ==> expendable(before, n, live)
}

/// `n` is a temporary file, or a table that is not among `live`.
pub open spec fn expendable(files: io::Files, n: Seq<u8>, live: Seq<TableRef>) -> bool {
    names::extension(n) == Some(names::tmp_ext()) || exists|level: u8, id: u64|
        level <= 1 && #[trigger] state::is_sst(files, n, level, id) && !live.contains((id, n))
}

/// Nothing that is expendable in `before` is left in `after`.
pub open spec fn swept(before: io::Files, after: io::Files, live: Seq<TableRef>) -> bool {
    forall|n: Seq<u8>| #[trigger] expendable(before, n, live) ==> !after.contains_key(n)
}

/// Ids and names, as mathematics.
spec fn found_refs(s: Seq<(u64, Vec<u8>)>) -> Seq<TableRef> {
    s.map_values(|p: (u64, Vec<u8>)| (p.0, p.1@))
}

/// The ids do not descend, and no name occurs twice.
spec fn ascending(s: Seq<TableRef>) -> bool {
    forall|i: int, j: int|
        0 <= i < j < s.len() ==> (#[trigger] s[i]).0 <= (#[trigger] s[j]).0 && s[i].1 != s[j].1
}

/// One of the first `i` names is `n`.
pub open spec fn among(listed: Seq<Vec<u8>>, i: int, n: Seq<u8>) -> bool {
    exists|j: int| 0 <= j < i && (#[trigger] listed[j])@ == n
}

/// `n` is a table of the bottom level.
spec fn is_bottom(files: io::Files, n: Seq<u8>) -> bool {
    exists|id: u64| #[trigger] state::is_sst(files, n, 1, id)
}

/// Some table has the number `id`.
spec fn is_taken(files: io::Files, id: u64) -> bool {
    exists|n: Seq<u8>, level: u8| #[trigger] state::is_sst(files, n, level, id)
}

/// The tables in a directory.
struct Found {
    /// Those of the top level, oldest first.
    l0: Vec<(u64, Vec<u8>)>,
    /// The newest of the bottom level.
    l1: Option<(u64, Vec<u8>)>,
    /// The others of the bottom level.
    orphans: Vec<Vec<u8>>,
    /// The highest id.
    max_id: Option<u64>,
}

impl Found {
    /// The top level is that of the first `i` of the names `listed`.
    spec fn covers_top(&self, files: io::Files, listed: Seq<Vec<u8>>, i: int) -> bool {
        let r0 = found_refs(self.l0@);
        &&& ascending(r0)
        &&& forall|a: int|
            0 <= a < r0.len() ==> state::is_sst(files, (#[trigger] r0[a]).1, 0, r0[a].0) && among(
                listed,
                i,
                r0[a].1,
            )
        &&& forall|j: int, id: u64|
            0 <= j < i && #[trigger] state::is_sst(files, listed[j]@, 0, id) ==> r0.contains(
                (id, listed[j]@),
            )
    }

    /// The bottom level is that of the first `i` of the names `listed`.
    spec fn covers_bottom(&self, files: io::Files, listed: Seq<Vec<u8>>, i: int) -> bool {
        match self.l1 {
            Some(p) => {
                &&& state::is_sst(files, p.1@, 1, p.0)
                &&& among(listed, i, p.1@)
                &&& forall|j: int, id: u64|
                    0 <= j < i && #[trigger] state::is_sst(files, listed[j]@, 1, id) ==> id <= p.0
            },
            None => forall|j: int, id: u64|
                0 <= j < i ==> !(#[trigger] state::is_sst(files, listed[j]@, 1, id)),
        }
    }

    /// The orphans are the others of the bottom level.
    spec fn has_orphans(&self, files: io::Files, listed: Seq<Vec<u8>>, i: int) -> bool {
        &&& forall|o: int|
            0 <= o < self.orphans@.len() ==> self.is_orphan(
                files,
                listed,
                i,
                (#[trigger] self.orphans@[o])@,
            )
        &&& forall|j: int, id: u64|
            0 <= j < i && #[trigger] state::is_sst(files, listed[j]@, 1, id) ==> {
                ||| self.l1 is Some && (self.l1->0).1@ == listed[j]@
                ||| among(self.orphans@, self.orphans@.len() as int, listed[j]@)
            }
    }

    /// `n` is another table of the bottom level.
    spec fn is_orphan(&self, files: io::Files, listed: Seq<Vec<u8>>, i: int, n: Seq<u8>) -> bool {
        &&& among(listed, i, n)
        &&& self.l1 is Some
        &&& n != (self.l1->0).1@
        &&& is_bottom(files, n)
    }

    /// The highest id is that of the first `i` of the names `listed`.
    spec fn has_max(&self, files: io::Files, listed: Seq<Vec<u8>>, i: int) -> bool {
        &&& forall|j: int, level: u8, id: u64|
            0 <= j < i && #[trigger] state::is_sst(files, listed[j]@, level, id) ==> self.max_id
                is Some && id <= self.max_id->0
        &&& self.max_id is Some ==> is_taken(files, self.max_id->0)
    }

    /// These are the tables among the first `i` of the names `listed`.
    spec fn covers(&self, files: io::Files, listed: Seq<Vec<u8>>, i: int) -> bool {
        &&& self.covers_top(files, listed, i)
        &&& self.covers_bottom(files, listed, i)
        &&& self.has_orphans(files, listed, i)
        &&& self.has_max(files, listed, i)
    }
}

/// Inserts `p` behind the tables with an id that is not larger.
fn insert_by_id(s: &mut Vec<(u64, Vec<u8>)>, id: u64, name: Vec<u8>)
    requires
        ascending(found_refs(old(s)@)),
        forall|a: int|
            0 <= a < old(s)@.len() ==> (#[trigger] found_refs(old(s)@)[a]).1 != name@,
    ensures
        ascending(found_refs(final(s)@)),
        found_refs(final(s)@).contains((id, name@)),
        forall|r: TableRef| #[trigger]
            found_refs(final(s)@).contains(r) <==> r == (id, name@) || found_refs(
                old(s)@,
            ).contains(r),
        final(s)@.len() == old(s)@.len() + 1,
{
    let ghost before = found_refs(s@);
    let ghost n0 = name@;
    let mut at: usize = s.len();
    while at > 0 && s[at - 1].0 > id
        invariant
            at <= s@.len(),
            s@ == old(s)@,
            forall|j: int| at <= j < s@.len() ==> (#[trigger] s@[j]).0 > id,
        decreases at,
    {
        at = at - 1;
    }
    s.insert(at, (id, name));
    proof {
        let after = found_refs(s@);
        let r = (id, n0);
        assert(after =~= before.insert(at as int, r));
        assert forall|i: int, j: int| 0 <= i < j < after.len() implies (#[trigger] after[i]).0 <= (
        #[trigger] after[j]).0 && after[i].1 != after[j].1 by {
            let bi = if i < at {
                i
            } else {
                i - 1
            };
            let bj = if j < at {
                j
            } else {
                j - 1
            };
            if i == at {
                assert(after[j] == before[bj]);
                assert(old(s)@[bj].0 > id);
            } else if j == at {
                assert(after[i] == before[bi]);
                assert(before[at - 1].0 <= id);
                if bi < at - 1 {
                    assert(before[bi].0 <= before[at - 1].0);
                }
            } else {
                assert(after[i] == before[bi]);
                assert(after[j] == before[bj]);
            }
        }
        assert(after[at as int] == r);
        assert forall|x: TableRef| #[trigger] after.contains(x) <==> x == r || before.contains(
            x,
        ) by {
            if after.contains(x) {
                let i = choose|i: int| 0 <= i < after.len() && after[i] == x;
                if i < at {
                    assert(before[i] == x);
                } else if i > at {
                    assert(before[i - 1] == x);
                }
            }
            if before.contains(x) {
                let i = choose|i: int| 0 <= i < before.len() && before[i] == x;
                if i < at {
                    assert(after[i] == x);
                } else {
                    assert(after[i + 1] == x);
                }
            }
        }
    }
}

impl Found {
    /// Takes the table `id` of `level` in the file `name`.
    fn take(&mut self, level: u8, id: u64, name: &[u8])
        requires
            ascending(found_refs(old(self).l0@)),
            forall|a: int|
                0 <= a < old(self).l0@.len() ==> (#[trigger] found_refs(old(self).l0@)[a]).1
                    != name@,
        ensures
            final(self).max_id == (match old(self).max_id {
                Some(m) => if m >= id {
                    Some(m)
                } else {
                    Some(id)
                },
                None => Some(id),
            }),
            level != 0 ==> final(self).l0@ == old(self).l0@,
            level != 1 ==> final(self).l1 == old(self).l1 && final(self).orphans@ == old(self).orphans@,
            level == 0 ==> {
                &&& ascending(found_refs(final(self).l0@))
                &&& forall|r: TableRef| #[trigger]
                    found_refs(final(self).l0@).contains(r) <==> r == (id, name@) || found_refs(
                        old(self).l0@,
                    ).contains(r)
            },
            level == 1 ==> match old(self).l1 {
                None => final(self).l1 matches Some(p) && p.0 == id && p.1@ == name@
                    && final(self).orphans@ == old(self).orphans@,
                Some(b) => {
                    &&& final(self).orphans@.len() == old(self).orphans@.len() + 1
                    &&& final(self).orphans@.drop_last() == old(self).orphans@
                    &&& if b.0 > id {
                        final(self).l1 == old(self).l1 && final(self).orphans@.last()@ == name@
                    } else {
                        &&& final(self).l1 matches Some(p)
                        &&& p.0 == id
                        &&& p.1@ == name@
                        &&& final(self).orphans@.last()@ == b.1@
                    }
                },
            },
    {
        self.max_id =
        match self.max_id {
            Some(m) => if m >= id {
                Some(m)
            } else {
                Some(id)
            },
            None => Some(id),
        };
        if level == 0 {
            insert_by_id(&mut self.l0, id, copy_bytes(name));
        } else if level == 1 {
            match self.l1.take() {
                None => {
                    self.l1 = Some((id, copy_bytes(name)));
                },
                Some((best, other)) => {
                    if best > id {
                        self.l1 = Some((best, other));
                        self.orphans.push(copy_bytes(name));
                    } else {
                        self.l1 = Some((id, copy_bytes(name)));
                        self.orphans.push(other);
                    }
                    assert(self.orphans@.drop_last() =~= old(self).orphans@);
                },
            }
        }
    }
}

/// Sorts out the names of a directory; removes the temporary files.
fn scan_dir<I: Io>(io: &mut I, listed: &Vec<Vec<u8>>) -> (found: Found)
    requires
        io::lists(listed@, old(io).files()),
    ensures
        found.covers(old(io).files(), listed@, listed@.len() as int),
        only_temporary(old(io).files(), final(io).files()),
        old(io).is_reliable() ==> forall|n: Seq<u8>|
            names::extension(n) == Some(names::tmp_ext()) ==>
                !(#[trigger] final(io).files().contains_key(n)),
        final(io).is_reliable() == old(io).is_reliable(),
        forall|o: Seq<u8>|
            names::extension(o) != Some(names::tmp_ext()) && old(io).is_synced(o) ==>
                #[trigger] final(io).is_synced(o),
        forall|o: Seq<u8>|
            names::extension(o) != Some(names::tmp_ext()) && old(io).is_linked(o) ==>
                #[trigger] final(io).is_linked(o),
{
    let ghost files = io.files();
    let tmp = tmp_extension();
    let sst = sst_extension();
    let mut found = Found { l0: Vec::new(), l1: None, orphans: Vec::new(), max_id: None };
    let mut i: usize = 0;
    while i < listed.len()
        invariant
            i <= listed@.len(),
            files == old(io).files(),
            io::lists(listed@, files),
            tmp@ == names::tmp_ext(),
            sst@ == names::sst_ext(),
            found.covers(files, listed@, i as int),
            only_temporary(files, io.files()),
            old(io).is_reliable() ==> forall|j: int|
                0 <= j < i && names::extension((#[trigger] listed@[j])@) == Some(names::tmp_ext())
                    ==> !io.files().contains_key(listed@[j]@),
            io.is_reliable() == old(io).is_reliable(),
            forall|o: Seq<u8>|
                names::extension(o) != Some(names::tmp_ext()) && old(io).is_synced(o) ==>
                    #[trigger] io.is_synced(o),
            forall|o: Seq<u8>|
                names::extension(o) != Some(names::tmp_ext()) && old(io).is_linked(o) ==>
                    #[trigger] io.is_linked(o),
        decreases listed@.len() - i,
    {
        let name = &listed[i];
        let ghost before = found;
        let ghost n = name@;
        proof {
            assert(files.contains_key(listed@[i as int]@));
            assert forall|m: Seq<u8>| #[trigger] among(listed@, i as int, m) implies m != n by {
                let j = choose|j: int| 0 <= j < i && (#[trigger] listed@[j])@ == m;
                assert(listed@[j]@ != listed@[i as int]@);
            }
        }
        if has_extension(name.as_slice(), tmp.as_slice()) {
            let _ignored = io.remove_file(name.as_slice());
            proof {
                lemma_not_tmp(sst@, tmp@);
                lemma_covers_other(found, files, listed@, i as int);
            }
        } else if has_extension(name.as_slice(), sst.as_slice()) {
            match parse_sst_filename(name.as_slice()) {
                Some((level, id)) => {
                    proof {
                        assert forall|a: int| 0 <= a < found.l0@.len() implies (
                        #[trigger] found_refs(found.l0@)[a]).1 != n by {
                            assert(among(listed@, i as int, found_refs(found.l0@)[a].1));
                        }
                    }
                    found.take(level, id, name.as_slice());
                    proof {
                        lemma_covers_take(before, found, files, listed@, i as int, level, id);
                    }
                },
                None => {
                    proof {
                        lemma_covers_other(found, files, listed@, i as int);
                    }
                },
            }
        } else {
            proof {
                lemma_covers_other(found, files, listed@, i as int);
            }
        }
        i = i + 1;
    }
    proof {
        assert forall|n: Seq<u8>|
            old(io).is_reliable() && names::extension(n) == Some(
                names::tmp_ext(),
            ) implies !(#[trigger] io.files().contains_key(n)) by {
            if io.files().contains_key(n) {
                let j = choose|j: int| 0 <= j < listed@.len() && (#[trigger] listed@[j])@ == n;
            }
        }
    }
    found
}

/// `after` is `before` without some temporary files.
spec fn only_temporary(before: io::Files, after: io::Files) -> bool {
    &&& forall|n: Seq<u8>| #[trigger]
        after.contains_key(n) ==> before.contains_key(n) && after[n] == before[n]
    &&& forall|n: Seq<u8>| #[trigger]
        before.contains_key(n) && !after.contains_key(n) ==> names::extension(n) == Some(
            names::tmp_ext(),
        )
}

proof fn lemma_not_tmp(sst: Seq<u8>, tmp: Seq<u8>)
    requires
        sst == names::sst_ext(),
        tmp == names::tmp_ext(),
    ensures
        sst != tmp,
{
    assert(sst[0] != tmp[0]);
}

proof fn lemma_among(listed: Seq<Vec<u8>>, i: int)
    requires
        0 <= i < listed.len(),
    ensures
        among(listed, i + 1, listed[i]@),
        forall|m: Seq<u8>| #[trigger] among(listed, i, m) ==> among(listed, i + 1, m),
{
    assert forall|m: Seq<u8>| #[trigger] among(listed, i, m) implies among(listed, i + 1, m) by {
        let j = choose|j: int| 0 <= j < i && (#[trigger] listed[j])@ == m;
        assert(listed[j]@ == m);
    }
}

/// A name that is no table changes nothing.
proof fn lemma_covers_other(found: Found, files: io::Files, listed: Seq<Vec<u8>>, i: int)
    requires
        0 <= i < listed.len(),
        found.covers(files, listed, i),
        forall|level: u8, id: u64| !(#[trigger] state::is_sst(files, listed[i]@, level, id)),
    ensures
        found.covers(files, listed, i + 1),
{
    lemma_among(listed, i);
    assert(found.covers_top(files, listed, i + 1));
    assert(found.covers_bottom(files, listed, i + 1));
    assert(found.has_orphans(files, listed, i + 1)) by {
        assert forall|o: int| 0 <= o < found.orphans@.len() implies found.is_orphan(
            files,
            listed,
            i + 1,
            (#[trigger] found.orphans@[o])@,
        ) by {
            assert(found.is_orphan(files, listed, i, found.orphans@[o]@));
        }
    }
    assert(found.has_max(files, listed, i + 1));
}

/// A table that was taken.
proof fn lemma_covers_take(
    before: Found,
    after: Found,
    files: io::Files,
    listed: Seq<Vec<u8>>,
    i: int,
    level: u8,
    id: u64,
)
    requires
        0 <= i < listed.len(),
        before.covers(files, listed, i),
        state::is_sst(files, listed[i]@, level, id),
        !among(listed, i, listed[i]@),
        after.max_id == (match before.max_id {
            Some(m) => if m >= id {
                Some(m)
            } else {
                Some(id)
            },
            None => Some(id),
        }),
        level != 0 ==> after.l0@ == before.l0@,
        level != 1 ==> after.l1 == before.l1 && after.orphans@ == before.orphans@,
        level == 0 ==> {
            &&& ascending(found_refs(after.l0@))
            &&& forall|r: TableRef| #[trigger]
                found_refs(after.l0@).contains(r) <==> r == (id, listed[i]@) || found_refs(
                    before.l0@,
                ).contains(r)
        },
        level == 1 ==> match before.l1 {
            None => after.l1 matches Some(p) && p.0 == id && p.1@ == listed[i]@ && after.orphans@
                == before.orphans@,
            Some(b) => {
                &&& after.orphans@.len() == before.orphans@.len() + 1
                &&& after.orphans@.drop_last() == before.orphans@
                &&& if b.0 > id {
                    after.l1 == before.l1 && after.orphans@.last()@ == listed[i]@
                } else {
                    &&& after.l1 matches Some(p)
                    &&& p.0 == id
                    &&& p.1@ == listed[i]@
                    &&& after.orphans@.last()@ == b.1@
                }
            },
        },
    ensures
        after.covers(files, listed, i + 1),
{
    lemma_among(listed, i);
    let n = listed[i]@;
    let r0 = found_refs(after.l0@);
    let b0 = found_refs(before.l0@);
    assert forall|a: int| 0 <= a < r0.len() implies state::is_sst(
        files,
        (#[trigger] r0[a]).1,
        0,
        r0[a].0,
    ) && among(listed, i + 1, r0[a].1) by {
        assert(r0.contains(r0[a]));
        if level == 0 {
            if r0[a] != (id, n) {
                assert(b0.contains(r0[a]));
                let c = choose|c: int| 0 <= c < b0.len() && b0[c] == r0[a];
                assert(among(listed, i, b0[c].1));
            }
        } else {
            assert(among(listed, i, b0[a].1));
        }
    }
    assert forall|j: int, x: u64|
        0 <= j < i + 1 && #[trigger] state::is_sst(files, listed[j]@, 0, x) implies r0.contains(
        (x, listed[j]@),
    ) by {
        if j < i {
            assert(b0.contains((x, listed[j]@)));
        }
    }
    assert forall|o: int| 0 <= o < after.orphans@.len() implies after.is_orphan(
        files,
        listed,
        i + 1,
        (#[trigger] after.orphans@[o])@,
    ) by {
        if o < before.orphans@.len() {
            assert(after.orphans@[o] == before.orphans@[o]);
            assert(before.is_orphan(files, listed, i, before.orphans@[o]@));
        } else {
            assert(after.orphans@[o] == after.orphans@.last());
            if (before.l1->0).0 > id {
                assert(state::is_sst(files, after.orphans@[o]@, 1, id));
            } else {
                assert(state::is_sst(files, after.orphans@[o]@, 1, (before.l1->0).0));
            }
        }
    }
    assert forall|j: int, x: u64|
        0 <= j < i + 1 && #[trigger] state::is_sst(files, listed[j]@, 1, x) implies {
        ||| after.l1 is Some && (after.l1->0).1@ == listed[j]@
        ||| among(after.orphans@, after.orphans@.len() as int, listed[j]@)
    } by {
        let m = listed[j]@;
        if among(before.orphans@, before.orphans@.len() as int, m) {
            let o = choose|o: int|
                0 <= o < before.orphans@.len() && (#[trigger] before.orphans@[o])@ == m;
            assert(after.orphans@[o] == before.orphans@[o]);
            assert(among(after.orphans@, after.orphans@.len() as int, m));
        } else if level == 1 && before.l1 is Some {
            let last = after.orphans@.len() - 1;
            assert(after.orphans@[last] == after.orphans@.last());
        }
    }
    assert(after.covers_top(files, listed, i + 1));
    assert(after.covers_bottom(files, listed, i + 1));
    assert(after.has_orphans(files, listed, i + 1));
    assert(after.has_max(files, listed, i + 1)) by {
        assert(state::is_sst(files, n, level, id));
    }
}

/// `after` is `before` without some of `names`.
pub open spec fn removes(before: io::Files, after: io::Files, names: Seq<Vec<u8>>) -> bool {
    &&& forall|n: Seq<u8>| #[trigger]
        after.contains_key(n) ==> before.contains_key(n) && after[n] == before[n]
    &&& forall|n: Seq<u8>| #[trigger]
        before.contains_key(n) && !after.contains_key(n) ==> among(names, names.len() as int, n)
}

/// Removes the files `names`, as far as that works. A reliable backend removes
/// all of them.
pub(crate) fn remove_all<I: Io>(io: &mut I, names: &Vec<Vec<u8>>)
    ensures
        removes(old(io).files(), final(io).files(), names@),
        old(io).is_reliable() ==> forall|n: Seq<u8>|
            among(names@, names@.len() as int, n) ==> !(#[trigger] final(io).files().contains_key(
                n,
            )),
        final(io).is_reliable() == old(io).is_reliable(),
        forall|o: Seq<u8>|
            !among(names@, names@.len() as int, o) && old(io).is_synced(o) ==>
                #[trigger] final(io).is_synced(o),
        forall|o: Seq<u8>|
            !among(names@, names@.len() as int, o) && old(io).is_linked(o) ==>
                #[trigger] final(io).is_linked(o),
{
    let mut i: usize = 0;
    while i < names.len()
        invariant
            i <= names@.len(),
            removes(old(io).files(), io.files(), names@),
            old(io).is_reliable() ==> forall|n: Seq<u8>|
                among(names@, i as int, n) ==> !(#[trigger] io.files().contains_key(n)),
            io.is_reliable() == old(io).is_reliable(),
            forall|o: Seq<u8>|
                !among(names@, names@.len() as int, o) && old(io).is_synced(o)
                    ==> #[trigger] io.is_synced(o),
            forall|o: Seq<u8>|
                !among(names@, names@.len() as int, o) && old(io).is_linked(o)
                    ==> #[trigger] io.is_linked(o),
        decreases names@.len() - i,
    {
        assert(among(names@, names@.len() as int, names@[i as int]@));
        let _ignored = io.remove_file(names[i].as_slice());
        i = i + 1;
    }
}

/// `n` is one of `refs` and not above `threshold`.
spec fn is_below(refs: Seq<TableRef>, threshold: Option<u64>, n: Seq<u8>) -> bool {
    exists|x: TableRef| #[trigger]
        refs.contains(x) && x.1 == n && threshold is Some && x.0 <= threshold->0
}

/// Parts the tables `all`, oldest first: those above `threshold`, and the
/// names of the others.
fn part(all: Vec<(u64, Vec<u8>)>, threshold: Option<u64>) -> (r: (
    Vec<(u64, Vec<u8>)>,
    Vec<Vec<u8>>,
))
    requires
        ascending(found_refs(all@)),
    ensures
        ascending(found_refs(r.0@)),
        forall|x: TableRef| #[trigger]
            found_refs(r.0@).contains(x) <==> found_refs(all@).contains(x) && (threshold matches Some(
                t,
            ) ==> x.0 > t),
        forall|o: int|
            0 <= o < r.1@.len() ==> is_below(found_refs(all@), threshold, (#[trigger] r.1@[o])@),
        forall|x: TableRef| #[trigger]
            found_refs(all@).contains(x) && (threshold matches Some(t) && x.0 <= t) ==> among(
                r.1@,
                r.1@.len() as int,
                x.1,
            ),
{
    let ghost refs = found_refs(all@);
    let mut live: Vec<(u64, Vec<u8>)> = Vec::new();
    let mut dead: Vec<Vec<u8>> = Vec::new();
    let n = all.len();
    let mut i: usize = 0;
    while i < n
        invariant
            n == all@.len(),
            i <= n,
            refs == found_refs(all@),
            ascending(refs),
            ascending(found_refs(live@)),
            forall|a: int|
                0 <= a < live@.len() ==> {
                    &&& exists|b: int| 0 <= b < i && #[trigger] refs[b] == found_refs(live@)[a]
                    &&& (threshold matches Some(t) ==> (#[trigger] found_refs(live@)[a]).0 > t)
                },
            forall|b: int|
                0 <= b < i && (threshold matches Some(t) ==> refs[b].0 > t) ==> found_refs(
                    live@,
                ).contains(#[trigger] refs[b]),
            forall|o: int|
                0 <= o < dead@.len() ==> is_below(refs, threshold, (#[trigger] dead@[o])@),
            forall|b: int|
                0 <= b < i && (threshold matches Some(t) && refs[b].0 <= t) ==> among(
                    dead@,
                    dead@.len() as int,
                    (#[trigger] refs[b]).1,
                ),
        decreases n - i,
    {
        let id = all[i].0;
        let name = copy_bytes(all[i].1.as_slice());
        let above = match threshold {
            None => true,
            Some(t) => id > t,
        };
        let ghost before = found_refs(live@);
        let ghost old_dead = dead@;
        assert(refs[i as int] == (id, name@));
        assert(refs.contains(refs[i as int]));
        if above {
            live.push((id, name));
            proof {
                let after = found_refs(live@);
                assert(after =~= before.push((id, name@)));
                assert forall|a: int, b: int| 0 <= a < b < after.len() implies (
                #[trigger] after[a]).0 <= (#[trigger] after[b]).0 && after[a].1 != after[b].1 by {
                    if b == before.len() {
                        let c = choose|c: int| 0 <= c < i && #[trigger] refs[c] == before[a];
                        assert(refs[c].0 <= refs[i as int].0);
                        assert(after[a] == before[a]);
                    } else {
                        assert(after[a] == before[a]);
                        assert(after[b] == before[b]);
                    }
                }
                assert forall|a: int| 0 <= a < live@.len() implies {
                    &&& exists|b: int| 0 <= b < i + 1 && #[trigger] refs[b] == found_refs(live@)[a]
                    &&& (threshold matches Some(t) ==> (#[trigger] found_refs(live@)[a]).0 > t)
                } by {
                    if a < before.len() {
                        let c = choose|c: int| 0 <= c < i && #[trigger] refs[c] == before[a];
                        assert(after[a] == before[a]);
                        assert(refs[c] == after[a]);
                    } else {
                        assert(refs[i as int] == after[a]);
                    }
                }
                assert forall|b: int|
                    0 <= b < i + 1 && (threshold matches Some(t) ==> refs[b].0
                        > t) implies after.contains(#[trigger] refs[b]) by {
                    if b < i {
                        assert(before.contains(refs[b]));
                        let c = choose|c: int| 0 <= c < before.len() && before[c] == refs[b];
                        assert(after[c] == refs[b]);
                    } else {
                        assert(after[before.len() as int] == refs[b]);
                    }
                }
            }
        } else {
            dead.push(name);
            proof {
                assert forall|o: int| 0 <= o < dead@.len() implies is_below(
                    refs,
                    threshold,
                    (#[trigger] dead@[o])@,
                ) by {
                    if o < old_dead.len() {
                        assert(dead@[o] == old_dead[o]);
                    } else {
                        assert(refs.contains(refs[i as int]));
                        assert(dead@[o]@ == name@);
                    }
                }
                assert forall|b: int|
                    0 <= b < i + 1 && (threshold matches Some(t) && refs[b].0 <= t) implies among(
                    dead@,
                    dead@.len() as int,
                    (#[trigger] refs[b]).1,
                ) by {
                    if b < i {
                        let o = choose|o: int|
                            0 <= o < old_dead.len() && (#[trigger] old_dead[o])@ == refs[b].1;
                        assert(dead@[o] == old_dead[o]);
                    } else {
                        assert(dead@[old_dead.len() as int]@ == refs[b].1);
                    }
                }
            }
        }
        i = i + 1;
    }
    proof {
        let out = found_refs(live@);
        assert forall|x: TableRef| #[trigger] out.contains(x) <==> refs.contains(x) && (
        threshold matches Some(t) ==> x.0 > t) by {
            if out.contains(x) {
                let a = choose|a: int| 0 <= a < out.len() && out[a] == x;
                let c = choose|c: int| 0 <= c < n && #[trigger] refs[c] == out[a];
                assert(refs[c] == x);
            }
            if refs.contains(x) && (threshold matches Some(t) ==> x.0 > t) {
                let b = choose|b: int| 0 <= b < refs.len() && refs[b] == x;
                assert(out.contains(refs[b]));
            }
        }
        assert forall|x: TableRef| #[trigger]
            refs.contains(x) && (threshold matches Some(t) && x.0 <= t) implies among(
            dead@,
            dead@.len() as int,
            x.1,
        ) by {
            let b = choose|b: int| 0 <= b < refs.len() && refs[b] == x;
            assert(refs[b] == x);
        }
    }
    (live, dead)
}

/// Opens the tables `found`, oldest first; returns them newest first.
fn open_all<I: Io>(io: &I, found: &Vec<(u64, Vec<u8>)>) -> (r: Result<Vec<SsTableEntry>>)
    ensures
        match r {
            Ok(v) => levels::all_open(v@, io.files()) && levels::refs_of(v@) == found_refs(
                found@,
            ).reverse(),
            Err(Error::Corruption(_)) => exists|i: int|
                0 <= i < found@.len() && is_damaged(
                    io.files(),
                    (#[trigger] found_refs(found@)[i]).1,
                ),
            Err(e) => e is Io && (io.is_reliable() ==> exists|i: int|
                0 <= i < found@.len() && !io.files().contains_key(
                    (#[trigger] found_refs(found@)[i]).1,
                )),
        },
{
    let mut out: Vec<SsTableEntry> = Vec::new();
    let mut i: usize = 0;
    while i < found.len()
        invariant
            i <= found@.len(),
            levels::all_open(out@, io.files()),
            out@.len() == i,
            forall|j: int|
                0 <= j < i ==> (#[trigger] out@[j]).table_ref() == found_refs(found@)[i - 1 - j],
        decreases found@.len() - i,
    {
        let ghost before = out@;
        match SsTableEntry::open(io, found[i].0, found[i].1.as_slice()) {
            Ok(t) => {
                out.insert(0, t);
                proof {
                    assert forall|j: int| 0 <= j < out@.len() implies (
                    #[trigger] out@[j]).open_in(io.files()) && out@[j].table_ref() == found_refs(
                        found@,
                    )[i - j] by {
                        if j > 0 {
                            assert(out@[j] == before[j - 1]);
                        }
                    }
                }
            },
            Err(e) => {
                assert(found_refs(found@)[i as int].1 == found@[i as int].1@);
                return Err(e);
            },
        }
        i = i + 1;
    }
    assert(levels::refs_of(out@) =~= found_refs(found@).reverse());
    Ok(out)
}

/// `n` is there, but no table that fits in memory.
pub open spec fn is_damaged(files: io::Files, n: Seq<u8>) -> bool {
    files.contains_key(n) && (!layout::is_table(files[n]) || files[n].len() > usize::MAX)
}

/// Some of `refs` is damaged.
pub open spec fn some_damaged(files: io::Files, refs: Seq<TableRef>) -> bool {
    exists|i: int| 0 <= i < refs.len() && is_damaged(files, (#[trigger] refs[i]).1)
}

/// `after` is what is left of `before` when the live tables are `l0` and `l1`.
pub open spec fn tidied(before: io::Files, after: io::Files) -> bool {
    exists|l0: Seq<TableRef>, l1: Seq<TableRef>, next: int|
        #[trigger] state::discovered(before, l0, l1, next) && pruned(before, after, l0 + l1)
}

/// The tables that a directory holds cannot all be opened.
pub open spec fn is_unusable(files: io::Files) -> bool {
    exists|l0: Seq<TableRef>, l1: Seq<TableRef>, next: int|
        #[trigger] state::discovered(files, l0, l1, next) && (next > u64::MAX || some_damaged(
            files,
            l0 + l1,
        ))
}

/// Whichever tables count of those that a directory holds, they cannot all be
/// opened.
pub open spec fn is_hopeless(files: io::Files) -> bool {
    forall|l0: Seq<TableRef>, l1: Seq<TableRef>, next: int| #[trigger]
        state::discovered(files, l0, l1, next) ==> next > u64::MAX || exists|i: int|
            0 <= i < (l0 + l1).len() && !layout::is_table(files[(#[trigger] (l0 + l1)[i]).1])
}

/// Finds and opens the live tables; removes what is left over, as far as that
/// works. A reliable backend removes all of it. Also returns the next id.
pub(crate) fn discover_sstables<I: Io>(io: &mut I, dir: &str) -> (r: Result<(LevelState, u64)>)
    ensures
        match r {
            Ok((levels, next)) => {
                &&& state::discovered(
                    old(io).files(),
                    levels.refs0(),
                    levels.refs1(),
                    next as int,
                )
                &&& pruned(old(io).files(), final(io).files(), levels.refs())
                &&& old(io).is_reliable() ==> swept(
                    old(io).files(),
                    final(io).files(),
                    levels.refs(),
                )
                &&& levels.open_in(final(io).files())
                &&& forall|o: Seq<u8>|
                    !expendable(old(io).files(), o, levels.refs()) && old(io).is_synced(o) ==>
                        #[trigger] final(io).is_synced(o)
                &&& forall|o: Seq<u8>|
                    !expendable(old(io).files(), o, levels.refs()) && old(io).is_linked(o) ==>
                        #[trigger] final(io).is_linked(o)
            },
            Err(e) => {
                &&& e is Io || e is Corruption
                &&& final(io).files() == old(io).files() || tidied(
                    old(io).files(),
                    final(io).files(),
                )
                &&& e is Corruption ==> is_unusable(old(io).files())
                &&& e is Io ==> !old(io).is_reliable()
            },
        },
        final(io).is_reliable() == old(io).is_reliable(),
{
    let ghost files = io.files();
    let listed = match io.list_dir(dir) {
        Ok(l) => l,
        Err(e) => {
            return Err(e);
        },
    };
    let found = scan_dir(io, &listed);
    let ghost scanned = io.files();
    let ghost found0 = found;
    let threshold = match &found.l1 {
        Some(p) => Some(p.0),
        None => None,
    };
    remove_all(io, &found.orphans);
    let ghost mid = io.files();
    let (live, dead) = part(found.l0, threshold);
    remove_all(io, &dead);
    let mut bottom: Vec<(u64, Vec<u8>)> = Vec::new();
    match found.l1 {
        Some(p) => {
            bottom.push(p);
        },
        None => {},
    }
    let ghost l0 = found_refs(live@).reverse();
    let ghost l1 = found_refs(bottom@);
    let ghost next: int = match found0.max_id {
        Some(m) => m + 1,
        None => 0,
    };
    proof {
        assert(l1.reverse() =~= l1);
        if found0.l1 is Some {
            let p = found0.l1->0;
            assert(l1 =~= seq![(p.0, p.1@)]);
        }
        lemma_discovered(files, listed@, found0, l0, l1, next, live@);
        lemma_may_go(files, listed@, found0, dead@, l0, l1, next);
        lemma_pruned(files, scanned, mid, io.files(), found0.orphans@, dead@, l0 + l1);
        lemma_live_stay(files, io.files(), l0, l1, next);
        if io.is_reliable() {
            lemma_swept(files, scanned, mid, io.files(), listed@, found0, dead@, l0, l1, next);
        }
        assert forall|i: int| 0 <= i < live@.len() implies io.files().contains_key(
            (#[trigger] found_refs(live@)[i]).1,
        ) by {
            let j = live@.len() - 1 - i;
            assert(l0[j] == found_refs(live@)[i]);
            assert((l0 + l1)[j] == l0[j]);
        }
        assert forall|i: int| 0 <= i < bottom@.len() implies io.files().contains_key(
            (#[trigger] found_refs(bottom@)[i]).1,
        ) by {
            assert((l0 + l1)[l0.len() + i] == l1[i]);
        }
    }
    let next_id = match found.max_id {
        None => 0,
        Some(m) => {
            if m == u64::MAX {
                return Err(corruption("SSTable ids are used up"));
            }
            m + 1
        },
    };
    let top = match open_all(io, &live) {
        Ok(t) => t,
        Err(e) => {
            proof {
                if e is Corruption {
                    let i = choose|i: int|
                        0 <= i < live@.len() && is_damaged(
                            io.files(),
                            (#[trigger] found_refs(live@)[i]).1,
                        );
                    let j = live@.len() - 1 - i;
                    assert(l0[j] == found_refs(live@)[i]);
                    assert((l0 + l1)[j] == l0[j]);
                    assert(is_damaged(files, (l0 + l1)[j].1));
                    assert(some_damaged(files, l0 + l1));
                }
            }
            return Err(e);
        },
    };
    let below = match open_all(io, &bottom) {
        Ok(t) => t,
        Err(e) => {
            proof {
                if e is Corruption {
                    let i = choose|i: int|
                        0 <= i < bottom@.len() && is_damaged(
                            io.files(),
                            (#[trigger] found_refs(bottom@)[i]).1,
                        );
                    assert((l0 + l1)[l0.len() + i] == l1[i]);
                    assert(is_damaged(files, (l0 + l1)[l0.len() + i].1));
                    assert(some_damaged(files, l0 + l1));
                }
            }
            return Err(e);
        },
    };
    Ok((LevelState::new(top, below), next_id))
}

/// The live tables stay.
proof fn lemma_live_stay(
    before: io::Files,
    after: io::Files,
    l0: Seq<TableRef>,
    l1: Seq<TableRef>,
    next: int,
)
    requires
        state::discovered(before, l0, l1, next),
        pruned(before, after, l0 + l1),
    ensures
        forall|i: int|
            0 <= i < (l0 + l1).len() ==> after.contains_key((#[trigger] (l0 + l1)[i]).1),
{
    let all = l0 + l1;
    assert forall|i: int| 0 <= i < all.len() implies after.contains_key((#[trigger] all[i]).1) by {
        let n = all[i].1;
        if i < l0.len() {
            assert(state::is_sst(before, l0[i].1, 0, l0[i].0));
        } else {
            assert(all[i] == l1[i - l0.len()]);
        }
        if !after.contains_key(n) {
            assert(before.contains_key(n) && !after.contains_key(n));
            assert(names::tmp_ext()[0] != names::sst_ext()[0]);
            assert(all.contains(all[i]));
        }
    }
}

proof fn lemma_discovered(
    files: io::Files,
    listed: Seq<Vec<u8>>,
    found: Found,
    l0: Seq<TableRef>,
    l1: Seq<TableRef>,
    next: int,
    live: Seq<(u64, Vec<u8>)>,
)
    requires
        io::lists(listed, files),
        found.covers(files, listed, listed.len() as int),
        l0 == found_refs(live).reverse(),
        ascending(found_refs(live)),
        match found.l1 {
            Some(p) => l1 == seq![(p.0, p.1@)],
            None => l1.len() == 0,
        },
        forall|x: TableRef| #[trigger]
            found_refs(live).contains(x) <==> found_refs(found.l0@).contains(x) && (
            found.l1 is Some ==> x.0 > (found.l1->0).0),
        next == (match found.max_id {
            Some(m) => m + 1,
            None => 0,
        }),
    ensures
        state::discovered(files, l0, l1, next),
{
    let n = listed.len() as int;
    let up = found_refs(live);
    let r0 = found_refs(found.l0@);
    assert forall|m: Seq<u8>, id: u64| #[trigger] state::is_sst(files, m, 1, id) implies l1.len()
        == 1 && id <= l1[0].0 by {
        let j = choose|j: int| 0 <= j < n && (#[trigger] listed[j])@ == m;
        assert(state::is_sst(files, listed[j]@, 1, id));
    }
    assert forall|i: int| 0 <= i < l0.len() implies state::is_sst(
        files,
        (#[trigger] l0[i]).1,
        0,
        l0[i].0,
    ) && state::above(l1, l0[i].0) by {
        assert(l0[i] == up[up.len() - 1 - i]);
        assert(up.contains(l0[i]));
        assert(r0.contains(l0[i]));
        let a = choose|a: int| 0 <= a < r0.len() && r0[a] == l0[i];
        assert(state::is_sst(files, r0[a].1, 0, r0[a].0));
    }
    assert forall|m: Seq<u8>, id: u64| #[trigger]
        state::is_sst(files, m, 0, id) && state::above(l1, id) implies l0.contains((id, m)) by {
        let j = choose|j: int| 0 <= j < n && (#[trigger] listed[j])@ == m;
        assert(state::is_sst(files, listed[j]@, 0, id));
        assert(r0.contains((id, listed[j]@)));
        assert(up.contains((id, m)));
        let a = choose|a: int| 0 <= a < up.len() && up[a] == (id, m);
        assert(l0[up.len() - 1 - a] == (id, m));
    }
    assert forall|i: int, j: int| 0 <= i < j < l0.len() implies (#[trigger] l0[i]).0 >= (
    #[trigger] l0[j]).0 && l0[i].1 != l0[j].1 by {
        assert(l0[i] == up[up.len() - 1 - i]);
        assert(l0[j] == up[up.len() - 1 - j]);
    }
    assert forall|m: Seq<u8>, level: u8, id: u64| #[trigger]
        state::is_sst(files, m, level, id) implies id < next by {
        let j = choose|j: int| 0 <= j < n && (#[trigger] listed[j])@ == m;
        assert(state::is_sst(files, listed[j]@, level, id));
    }
    if found.max_id is Some {
        assert(is_taken(files, found.max_id->0));
        let (m, level) = choose|m: Seq<u8>, level: u8| #[trigger]
            state::is_sst(files, m, level, found.max_id->0);
        assert(state::is_sst(files, m, level, found.max_id->0));
    }
}

/// Orphans, and tables below the bottom level, may go.
proof fn lemma_may_go(
    files: io::Files,
    listed: Seq<Vec<u8>>,
    found: Found,
    dead: Seq<Vec<u8>>,
    l0: Seq<TableRef>,
    l1: Seq<TableRef>,
    next: int,
)
    requires
        found.covers(files, listed, listed.len() as int),
        state::discovered(files, l0, l1, next),
        match found.l1 {
            Some(p) => l1 == seq![(p.0, p.1@)],
            None => l1.len() == 0,
        },
        forall|o: int|
            0 <= o < dead.len() ==> is_below(
                found_refs(found.l0@),
                match found.l1 {
                    Some(p) => Some(p.0),
                    None => None,
                },
                (#[trigger] dead[o])@,
            ),
    ensures
        forall|n: Seq<u8>| #[trigger]
            among(found.orphans@, found.orphans@.len() as int, n) ==> expendable(
                files,
                n,
                l0 + l1,
            ),
        forall|n: Seq<u8>| #[trigger]
            among(dead, dead.len() as int, n) ==> expendable(files, n, l0 + l1),
{
    let live = l0 + l1;
    assert forall|n: Seq<u8>| #[trigger]
        among(found.orphans@, found.orphans@.len() as int, n) implies expendable(
        files,
        n,
        live,
    ) by {
        let o = choose|o: int|
            0 <= o < found.orphans@.len() && (#[trigger] found.orphans@[o])@ == n;
        assert(found.is_orphan(files, listed, listed.len() as int, found.orphans@[o]@));
        let id = choose|id: u64| #[trigger] state::is_sst(files, n, 1, id);
        if live.contains((id, n)) {
            let i = choose|i: int| 0 <= i < live.len() && live[i] == (id, n);
            if i < l0.len() {
                assert(l0[i] == live[i]);
                assert(state::is_sst(files, l0[i].1, 0, l0[i].0));
            } else {
                assert(l1[i - l0.len()] == live[i]);
            }
        }
    }
    assert forall|n: Seq<u8>| #[trigger] among(dead, dead.len() as int, n) implies expendable(
        files,
        n,
        live,
    ) by {
        let o = choose|o: int| 0 <= o < dead.len() && (#[trigger] dead[o])@ == n;
        let r0 = found_refs(found.l0@);
        let x = choose|x: TableRef| #[trigger]
            r0.contains(x) && x.1 == n && found.l1 is Some && x.0 <= (found.l1->0).0;
        let a = choose|a: int| 0 <= a < r0.len() && r0[a] == x;
        assert(state::is_sst(files, r0[a].1, 0, r0[a].0));
        if live.contains((x.0, n)) {
            let i = choose|i: int| 0 <= i < live.len() && live[i] == (x.0, n);
            if i < l0.len() {
                assert(l0[i] == live[i]);
                assert(state::above(l1, l0[i].0));
            } else {
                assert(l1[i - l0.len()] == live[i]);
                assert(state::is_sst(files, l1[0].1, 1, l1[0].0));
            }
        }
    }
}

/// What is expendable is temporary, an orphan, or below the bottom level.
proof fn lemma_swept(
    files: io::Files,
    scanned: io::Files,
    mid: io::Files,
    after: io::Files,
    listed: Seq<Vec<u8>>,
    found: Found,
    dead: Seq<Vec<u8>>,
    l0: Seq<TableRef>,
    l1: Seq<TableRef>,
    next: int,
)
    requires
        io::lists(listed, files),
        found.covers(files, listed, listed.len() as int),
        state::discovered(files, l0, l1, next),
        match found.l1 {
            Some(p) => l1 == seq![(p.0, p.1@)],
            None => l1.len() == 0,
        },
        removes(scanned, mid, found.orphans@),
        removes(mid, after, dead),
        forall|n: Seq<u8>|
            names::extension(n) == Some(names::tmp_ext()) ==>
                !(#[trigger] scanned.contains_key(n)),
        forall|n: Seq<u8>|
            among(found.orphans@, found.orphans@.len() as int, n) ==>
                !(#[trigger] mid.contains_key(n)),
        forall|n: Seq<u8>|
            among(dead, dead.len() as int, n) ==> !(#[trigger] after.contains_key(n)),
        forall|x: TableRef| #[trigger]
            found_refs(found.l0@).contains(x) && found.l1 is Some && x.0 <= (found.l1->0).0
                ==> among(dead, dead.len() as int, x.1),
    ensures
        swept(files, after, l0 + l1),
{
    let live = l0 + l1;
    assert forall|n: Seq<u8>| #[trigger] expendable(files, n, live) implies !after.contains_key(
        n,
    ) by {
        if after.contains_key(n) {
            assert(mid.contains_key(n));
            assert(scanned.contains_key(n));
            let (level, id) = choose|level: u8, id: u64|
                level <= 1 && #[trigger] state::is_sst(files, n, level, id) && !live.contains(
                    (id, n),
                );
            let j = choose|j: int| 0 <= j < listed.len() && (#[trigger] listed[j])@ == n;
            assert(state::is_sst(files, listed[j]@, level, id));
            if level == 1 {
                assert(found.l1 is Some && (found.l1->0).1@ == n);
                assert(state::is_sst(files, n, 1, (found.l1->0).0));
                assert(live[l0.len() as int] == l1[0]);
                assert(live.contains((id, n)));
            } else {
                if state::above(l1, id) {
                    assert(l0.contains((id, n)));
                    let i = choose|i: int| 0 <= i < l0.len() && l0[i] == (id, n);
                    assert(live[i] == (id, n));
                } else {
                    assert(found_refs(found.l0@).contains((id, n)));
                    assert(among(dead, dead.len() as int, n));
                }
            }
        }
    }
}

proof fn lemma_pruned(
    before: io::Files,
    scanned: io::Files,
    mid: io::Files,
    after: io::Files,
    orphans: Seq<Vec<u8>>,
    dead: Seq<Vec<u8>>,
    live: Seq<TableRef>,
)
    requires
        only_temporary(before, scanned),
        removes(scanned, mid, orphans),
        removes(mid, after, dead),
        forall|n: Seq<u8>| #[trigger]
            among(orphans, orphans.len() as int, n) ==> expendable(before, n, live),
        forall|n: Seq<u8>| #[trigger]
            among(dead, dead.len() as int, n) ==> expendable(before, n, live),
    ensures
        pruned(before, after, live),
{
    assert forall|n: Seq<u8>| #[trigger] after.contains_key(n) implies before.contains_key(n)
        && after[n] == before[n] by {
        assert(mid.contains_key(n));
        assert(scanned.contains_key(n));
    }
    assert forall|n: Seq<u8>| #[trigger]
        before.contains_key(n) && !after.contains_key(n) implies expendable(before, n, live) by {
        if scanned.contains_key(n) {
            if mid.contains_key(n) {
                assert(among(dead, dead.len() as int, n));
            } else {
                assert(among(orphans, orphans.len() as int, n));
            }
        }
    }
}

} // verus!
