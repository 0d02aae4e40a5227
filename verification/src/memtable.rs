//! In-memory sorted write buffer.
//!
//! A [`Memtable`] is the head of the write path: every `put` or `delete`
//! lands here first, in addition to being recorded in the log. Reads consult
//! it before they fall through to the tables on disk. When it grows past a
//! threshold the engine writes it out as a table and starts an empty one.
//!
//! `delete` does not remove a key: it records a [`Entry::Tombstone`] that
//! masks older values below.

use crate::assoc;
use crate::codec::copy_bytes;
use crate::keymap::KeyMap;
use vstd::prelude::*;

verus! {

/// What a memtable or a table holds for a key.
#[derive(Debug, Clone, PartialEq, Eq)]
pub enum Entry {
    /// The key holds a regular (opaque) value.
    Put(Vec<u8>),
    /// The key holds an embedding: `dim` four-byte floats, least significant
    /// byte first.
    Vector(Vec<u8>),
    /// The key has been deleted; this masks older versions.
    Tombstone,
}

/// The mathematical content of an [`Entry`].
#[verifier::ext_equal]
pub enum EntryView {
    Put(Seq<u8>),
    Vector(Seq<u8>),
    Tombstone,
}

impl View for Entry {
    type V = EntryView;

    open spec fn view(&self) -> EntryView {
        match self {
            Entry::Put(v) => EntryView::Put(v@),
            Entry::Vector(v) => EntryView::Vector(v@),
            Entry::Tombstone => EntryView::Tombstone,
        }
    }
}

impl EntryView {
    /// The bytes of the value; none for a tombstone.
    pub open spec fn payload(self) -> Seq<u8> {
        match self {
            EntryView::Put(v) => v,
            EntryView::Vector(v) => v,
            EntryView::Tombstone => Seq::empty(),
        }
    }

    /// What a reader sees: the value, or nothing for a tombstone.
    pub open spec fn visible(self) -> Option<Seq<u8>> {
        match self {
            EntryView::Put(v) => Some(v),
            EntryView::Vector(v) => Some(v),
            EntryView::Tombstone => None,
        }
    }
}

impl Entry {
    /// Bytes of the value (none for a tombstone).
    pub fn payload(&self) -> (p: &[u8])
        ensures
            p@ == self@.payload(),
    {
        match self {
            Entry::Put(v) => v.as_slice(),
            Entry::Vector(v) => v.as_slice(),
            Entry::Tombstone => {
                let empty: [u8; 0] = [];
                assert(empty@ =~= Seq::<u8>::empty());
                &[]
            },
        }
    }

    /// Number of bytes of the value (0 for a tombstone).
    fn payload_size(&self) -> (n: usize)
        ensures
            n == self@.payload().len(),
    {
        match self {
            Entry::Put(v) => v.len(),
            Entry::Vector(v) => v.len(),
            Entry::Tombstone => 0,
        }
    }

    /// True if this entry carries an embedding.
    pub fn is_vector(&self) -> (r: bool)
        ensures
            r == (self@ is Vector),
    {
        matches!(self, Entry::Vector(_))
    }

    /// A copy of the entry.
    pub fn copy(&self) -> (e: Entry)
        ensures
            e@ == self@,
    {
        match self {
            Entry::Put(v) => Entry::Put(copy_bytes(v.as_slice())),
            Entry::Vector(v) => Entry::Vector(copy_bytes(v.as_slice())),
            Entry::Tombstone => Entry::Tombstone,
        }
    }
}

/// Result of [`Memtable::get`]: a deleted key ends the search, a missing one
/// does not.
#[derive(Debug, Clone, Copy, PartialEq, Eq)]
pub enum Lookup<'a> {
    /// The key is present with this value.
    Found(&'a [u8]),
    /// The key has a tombstone here.
    Deleted,
    /// The key is not here.
    Missing,
}

/// `l` reports the entry `e`.
pub open spec fn reports(l: Lookup<'_>, e: Option<EntryView>) -> bool {
    match l {
        Lookup::Found(v) => e is Some && e->0.visible() == Some(v@),
        Lookup::Deleted => e == Some(EntryView::Tombstone),
        Lookup::Missing => e is None,
    }
}

/// Bytes of the keys and values of `s`.
pub open spec fn footprint(s: Seq<(Seq<u8>, EntryView)>) -> nat
    decreases s.len(),
{
    if s.len() == 0 {
        0
    } else {
        footprint(s.drop_last()) + s.last().0.len() + s.last().1.payload().len()
    }
}

proof fn lemma_footprint_concat(a: Seq<(Seq<u8>, EntryView)>, b: Seq<(Seq<u8>, EntryView)>)
    ensures
        footprint(a + b) == footprint(a) + footprint(b),
    decreases b.len(),
{
    if b.len() == 0 {
        assert(a + b =~= a);
    } else {
        lemma_footprint_concat(a, b.drop_last());
        assert((a + b).drop_last() =~= a + b.drop_last());
    }
}

proof fn lemma_footprint_one(p: (Seq<u8>, EntryView))
    ensures
        footprint(seq![p]) == p.0.len() + p.1.payload().len(),
{
    reveal_with_fuel(footprint, 2);
    assert(seq![p].drop_last() =~= Seq::empty());
}

/// How setting one entry changes the footprint.
proof fn lemma_footprint_set(
    s: Seq<(Seq<u8>, EntryView)>,
    k: Seq<u8>,
    e: EntryView,
    t: Seq<(Seq<u8>, EntryView)>,
)
    requires
        assoc::sorted_pairs(s),
        assoc::is_set(s, k, e, t),
    ensures
        assoc::find(s, k) is None ==> footprint(t) == footprint(s) + k.len() + e.payload().len(),
        assoc::find(s, k) matches Some(o) ==> footprint(t) + o.payload().len() == footprint(s)
            + e.payload().len() && o.payload().len() <= footprint(s),
        t.len() == s.len() + (if assoc::find(s, k) is None {
            1int
        } else {
            0int
        }),
{
    lemma_footprint_one((k, e));
    if assoc::has_key(s, k) {
        let at = choose|at: int|
            0 <= at < s.len() && s[at].0 == k && t == #[trigger] s.update(at, (k, e));
        assoc::lemma_find_at(s, at);
        lemma_footprint_one(s[at]);
        assert(s =~= s.take(at) + seq![s[at]] + s.skip(at + 1));
        assert(t =~= s.take(at) + seq![(k, e)] + s.skip(at + 1));
        lemma_footprint_concat(s.take(at) + seq![s[at]], s.skip(at + 1));
        lemma_footprint_concat(s.take(at), seq![s[at]]);
        lemma_footprint_concat(s.take(at) + seq![(k, e)], s.skip(at + 1));
        lemma_footprint_concat(s.take(at), seq![(k, e)]);
    } else {
        let at = choose|at: int| 0 <= at <= s.len() && t == #[trigger] s.insert(at, (k, e));
        assert(s =~= s.take(at) + s.skip(at));
        assert(t =~= s.take(at) + seq![(k, e)] + s.skip(at));
        lemma_footprint_concat(s.take(at), s.skip(at));
        lemma_footprint_concat(s.take(at) + seq![(k, e)], s.skip(at));
        lemma_footprint_concat(s.take(at), seq![(k, e)]);
    }
}

/// `a + b`, held at the largest `usize`.
pub open spec fn sat_add(a: int, b: int) -> int {
    if a + b > usize::MAX {
        usize::MAX as int
    } else {
        a + b
    }
}

/// `a - b`, held at zero.
pub open spec fn sat_sub(a: int, b: int) -> int {
    if a < b {
        0
    } else {
        a - b
    }
}

/// The running size after the entry for `k`, so far `before`, becomes `e`.
pub open spec fn size_after(size: int, before: Option<EntryView>, k: Seq<u8>, e: EntryView) -> int {
    match before {
        None => sat_add(size, (k.len() + e.payload().len()) as int),
        Some(o) => sat_add(sat_sub(size, o.payload().len() as int), e.payload().len() as int),
    }
}

/// In-memory sorted write buffer.
#[derive(Debug)]
pub struct Memtable {
    map: KeyMap<Entry>,
    /// Running estimate of the bytes of keys and values.
    approximate_size: usize,
}

impl Memtable {
    /// The entries, in ascending key order.
    pub closed spec fn pairs(&self) -> Seq<(Seq<u8>, EntryView)> {
        self.map.pairs()
    }

    /// The running estimate of the size.
    pub closed spec fn size(&self) -> int {
        self.approximate_size as int
    }

    /// The keys ascend, so each has one entry.
    pub open spec fn wf(&self) -> bool {
        assoc::sorted_pairs(self.pairs())
    }

    /// The entry for `k`.
    pub open spec fn entry(&self, k: Seq<u8>) -> Option<EntryView> {
        assoc::find(self.pairs(), k)
    }

    /// The estimate is the number of bytes held.
    pub open spec fn size_is_exact(&self) -> bool {
        self.size() == footprint(self.pairs())
    }

    /// `self` became `after` by setting the entry for `k` to `e`, and nothing
    /// else changed. The size estimate stays exact while it fits in a `usize`.
    pub open spec fn sets(&self, k: Seq<u8>, e: EntryView, after: &Memtable) -> bool {
        &&& after.wf()
        &&& after.entry(k) == Some(e)
        &&& forall|o: Seq<u8>| o != k ==> #[trigger] after.entry(o) == self.entry(o)
        &&& after.pairs().len() == self.pairs().len() + (if self.entry(k) is None {
            1int
        } else {
            0int
        })
        &&& after.size() == size_after(self.size(), self.entry(k), k, e)
        &&& self.size_is_exact() && footprint(after.pairs()) <= usize::MAX
            ==> after.size_is_exact()
    }

    /// While it fits, the size counts each key and each value once: a new key
    /// adds its length and that of its value, another value for a key that is
    /// there counts in place of the old one.
    pub proof fn lemma_size(&self, k: Seq<u8>, e: EntryView, after: &Memtable)
        requires
            self.sets(k, e, after),
        ensures
            ({
                let new = match e {
                    EntryView::Put(v) => v.len() as int,
                    EntryView::Vector(v) => v.len() as int,
                    EntryView::Tombstone => 0,
                };
                match self.entry(k) {
                    None => self.size() + k.len() + new <= usize::MAX ==> after.size()
                        == self.size() + k.len() + new,
                    Some(o) => {
                        let old_len = match o {
                            EntryView::Put(v) => v.len() as int,
                            EntryView::Vector(v) => v.len() as int,
                            EntryView::Tombstone => 0,
                        };
                        old_len <= self.size() && self.size() - old_len + new <= usize::MAX
                            ==> after.size() == self.size() - old_len + new
                    },
                }
            }),
            after.pairs().len() == self.pairs().len() || after.pairs().len() == self.pairs().len()
                + 1,
            after.pairs().len() == self.pairs().len() + 1 <==> self.entry(k) is None,
    {
    }

    /// An empty memtable.
    pub fn new() -> (m: Self)
        ensures
            m.wf(),
            m.pairs() == Seq::<(Seq<u8>, EntryView)>::empty(),
            m.size() == 0,
            m.size_is_exact(),
    {
        Memtable { map: KeyMap::new(), approximate_size: 0 }
    }

    /// Sets the entry for `key`.
    pub(crate) fn set(&mut self, key: Vec<u8>, entry: Entry)
        requires
            old(self).wf(),
        ensures
            old(self).sets(key@, entry@, final(self)),
    {
        let ghost s = self.pairs();
        let ghost k = key@;
        let ghost e = entry@;
        let key_len = key.len();
        let new_payload = entry.payload_size();
        let replaced = self.map.insert(key, entry);
        match replaced {
            None => {
                // A new key: count both key and value.
                self.approximate_size =
                self.approximate_size.saturating_add(key_len).saturating_add(new_payload);
            },
            Some(before) => {
                // The key is counted already: adjust by the value alone.
                self.approximate_size =
                self.approximate_size.saturating_sub(before.payload_size()).saturating_add(
                    new_payload,
                );
            },
        }
        proof {
            lemma_footprint_set(s, k, e, self.pairs());
            assert(self.map.pairs() == self.pairs());
            assert(assoc::find(self.pairs(), k) == Some(e));
            assert forall|o: Seq<u8>| o != k implies #[trigger] self.entry(o) == old(self).entry(
                o,
            ) by {
                assert(assoc::find(self.map.pairs(), o) == assoc::find(s, o));
            }
        }
    }

    /// Sets `key` to `value`.
    pub fn put(&mut self, key: Vec<u8>, value: Vec<u8>)
        requires
            old(self).wf(),
        ensures
            old(self).sets(key@, EntryView::Put(value@), final(self)),
            final(self).entry(key@) == Some(EntryView::Put(value@)),
            forall|o: Seq<u8>|
                o != key@ ==> #[trigger] final(self).entry(o) == old(self).entry(o),
    {
        self.set(key, Entry::Put(value));
    }

    /// Sets `key` to an embedding.
    pub fn put_vector(&mut self, key: Vec<u8>, vector_bytes: Vec<u8>)
        requires
            old(self).wf(),
        ensures
            old(self).sets(key@, EntryView::Vector(vector_bytes@), final(self)),
            final(self).entry(key@) == Some(EntryView::Vector(vector_bytes@)),
            forall|o: Seq<u8>|
                o != key@ ==> #[trigger] final(self).entry(o) == old(self).entry(o),
    {
        self.set(key, Entry::Vector(vector_bytes));
    }

    /// Records a tombstone for `key`.
    pub fn delete(&mut self, key: Vec<u8>)
        requires
            old(self).wf(),
        ensures
            old(self).sets(key@, EntryView::Tombstone, final(self)),
            final(self).entry(key@) == Some(EntryView::Tombstone),
            forall|o: Seq<u8>|
                o != key@ ==> #[trigger] final(self).entry(o) == old(self).entry(o),
    {
        self.set(key, Entry::Tombstone);
    }

    /// Looks up `key`.
    pub fn get(&self, key: &[u8]) -> (l: Lookup<'_>)
        requires
            self.wf(),
        ensures
            reports(l, self.entry(key@)),
            match self.entry(key@) {
                Some(EntryView::Put(v)) => l matches Lookup::Found(x) && x@ == v,
                Some(EntryView::Vector(v)) => l matches Lookup::Found(x) && x@ == v,
                Some(EntryView::Tombstone) => l is Deleted,
                None => l is Missing,
            },
    {
        match self.map.get(key) {
            Some(Entry::Put(v)) => Lookup::Found(v.as_slice()),
            Some(Entry::Vector(v)) => Lookup::Found(v.as_slice()),
            Some(Entry::Tombstone) => Lookup::Deleted,
            None => Lookup::Missing,
        }
    }

    /// Number of entries, tombstones included.
    pub fn len(&self) -> (n: usize)
        ensures
            n == self.pairs().len(),
    {
        self.map.len()
    }

    /// True if no entries are held.
    pub fn is_empty(&self) -> (r: bool)
        ensures
            r == (self.pairs().len() == 0),
    {
        self.map.len() == 0
    }

    /// Estimated bytes of keys and values.
    pub fn approximate_size(&self) -> (n: usize)
        ensures
            n == self.size(),
    {
        self.approximate_size
    }

    /// The entries in ascending key order.
    pub fn iter(&self) -> (r: Vec<(&[u8], &Entry)>)
        ensures
            r@.len() == self.pairs().len(),
            forall|i: int|
                0 <= i < r@.len() ==> (#[trigger] r@[i]).0@ == self.pairs()[i].0 && r@[i].1@
                    == self.pairs()[i].1,
    {
        let mut out: Vec<(&[u8], &Entry)> = Vec::new();
        let n = self.map.len();
        for i in 0..n
            invariant
                n == self.map.pairs().len(),
                out@.len() == i,
                forall|j: int|
                    0 <= j < i ==> (#[trigger] out@[j]).0@ == self.map.pairs()[j].0 && out@[j].1@
                        == self.map.pairs()[j].1,
        {
            out.push((self.map.key_at(i).as_slice(), self.map.value_at(i)));
        }
        out
    }
}

impl Default for Memtable {
    fn default() -> (m: Self)
        ensures
            m.wf(),
            m.pairs() == Seq::<(Seq<u8>, EntryView)>::empty(),
            m.size() == 0,
    {
        Memtable::new()
    }
}

} // verus!
