//! Table reader: point lookups and walks.
//!
//! Opening a table checks the footer and loads the index and the filter. A
//! lookup then reads at most one data block.

use crate::checksum;
use crate::checksum::crc32_hash;
use crate::codec::{copy_bytes, copy_range, get_u32, get_u64, same_bytes};
use crate::error::{corruption, Error, Result};
use crate::io;
use crate::io::Io;
use crate::memtable::Entry;
use crate::order;
use crate::order::{order_keys, KeyOrder};
use crate::sstable::bloom::BloomFilter;
use crate::sstable::layout;
use crate::sstable::layout::{
    IndexView, Pairs, Scan, TableView, FOOTER_LEN, KIND_DELETE, KIND_PUT, KIND_VECTOR,
};
use crate::sstable::writer;
use crate::sstable::writer::{footer_magic, IndexEntry};
use vstd::prelude::*;
use vstd::slice::slice_subrange;

verus! {

/// Result of a point lookup.
#[derive(Debug, Clone, PartialEq, Eq)]
pub enum SsTableLookup {
    /// The key is in the table with this value.
    Found(Vec<u8>),
    /// The key has a tombstone in the table: older sources do not matter.
    Deleted,
    /// The key is not in the table.
    Missing,
}

/// `l` reports the outcome `s`.
pub open spec fn reports(l: SsTableLookup, s: Scan) -> bool {
    match s {
        Scan::Hit(e) => match e.visible() {
            Some(v) => l matches SsTableLookup::Found(b) && b@ == v,
            None => l is Deleted,
        },
        Scan::Missing => l is Missing,
        Scan::Damaged => false,
        Scan::Lost => false,
    }
}

/// Reader of one table.
#[derive(Debug)]
pub struct SsTableReader {
    name: Vec<u8>,
    index: Vec<IndexEntry>,
    bloom: Option<BloomFilter>,
}

impl SsTableReader {
    /// The file that is read.
    pub closed spec fn file_name(&self) -> Seq<u8> {
        self.name@
    }

    /// What was loaded.
    pub closed spec fn table(&self) -> TableView {
        TableView { index: writer::index_view(self.index@), filter: self.bloom }
    }

    /// The filter, if there is one, is well-formed.
    pub open spec fn wf(&self) -> bool {
        self.table().filter matches Some(f) ==> f.wf()
    }

    /// The content of the file.
    pub open spec fn content(&self, files: io::Files) -> Seq<u8> {
        files[self.file_name()]
    }

    /// Opens the table `name`.
    pub fn open<I: Io>(io: &I, name: &[u8]) -> (r: Result<SsTableReader>)
        ensures
            match r {
                Ok(t) => {
                    &&& t.wf()
                    &&& t.file_name() == name@
                    &&& io.files().contains_key(name@)
                    &&& layout::opens_as(io.files()[name@], t.table())
                },
                Err(Error::Corruption(_)) => io.files().contains_key(name@) && (!layout::is_table(
                    io.files()[name@],
                ) || io.files()[name@].len() > usize::MAX),
                Err(e) => e is Io && (io.is_reliable() ==> !io.files().contains_key(name@)),
            },
    {
        match io.open_read(name) {
            Ok(_) => {},
            Err(e) => {
                return Err(e);
            },
        }
        let file_len = match io.len(name) {
            Ok(n) => n,
            Err(e) => {
                return Err(e);
            },
        };
        let ghost b = io.files()[name@];
        if file_len < FOOTER_LEN as u64 {
            return Err(corruption("SSTable file shorter than footer"));
        }
        if file_len > usize::MAX as u64 {
            return Err(corruption("SSTable file larger than memory"));
        }
        let footer = match io.read_at(name, file_len - FOOTER_LEN as u64, FOOTER_LEN) {
            Ok(f) => f,
            Err(e) => {
                return Err(e);
            },
        };
        let ghost z = b.len() - 40;
        proof {
            assert(footer@.subrange(0, 8) =~= b.subrange(z, z + 8));
            assert(footer@.subrange(8, 16) =~= b.subrange(z + 8, z + 16));
            assert(footer@.subrange(16, 24) =~= b.subrange(z + 16, z + 24));
            assert(footer@.subrange(24, 32) =~= b.subrange(z + 24, z + 32));
            assert(footer@.subrange(32, 40) =~= b.skip(b.len() - 8));
        }
        let index_offset = get_u64(footer.as_slice(), 0);
        let index_length = get_u64(footer.as_slice(), 8);
        let bloom_offset = get_u64(footer.as_slice(), 16);
        let bloom_length = get_u64(footer.as_slice(), 24);
        if !same_bytes(slice_subrange(footer.as_slice(), 32, 40), footer_magic().as_slice()) {
            return Err(corruption("SSTable footer magic mismatch"));
        }
        let body_len = file_len - FOOTER_LEN as u64;
        if index_offset > body_len || index_length > body_len - index_offset {
            return Err(corruption("SSTable index bounds out of range"));
        }
        if bloom_length > 0 && (bloom_offset > body_len - index_length || bloom_length > body_len
            - index_length - bloom_offset) {
            return Err(corruption("SSTable bloom bounds out of range"));
        }
        let index_bytes = match io.read_at(name, index_offset, index_length as usize) {
            Ok(f) => f,
            Err(e) => {
                return Err(e);
            },
        };
        assert(index_bytes@ =~= layout::index_block(b));
        let index = match parse_index_block(index_bytes.as_slice()) {
            Ok(i) => i,
            Err(e) => {
                return Err(e);
            },
        };
        let bloom = if bloom_length > 0 {
            let bloom_bytes = match io.read_at(name, bloom_offset, bloom_length as usize) {
                Ok(f) => f,
                Err(e) => {
                    return Err(e);
                },
            };
            assert(bloom_bytes@ =~= layout::bloom_block(b));
            match BloomFilter::decode(bloom_bytes.as_slice()) {
                Ok(f) => Some(f),
                Err(e) => {
                    return Err(e);
                },
            }
        } else {
            None
        };
        Ok(SsTableReader { name: copy_bytes(name), index, bloom })
    }

    /// The filter excludes `key`, or every block starts after it.
    pub open spec fn excludes(&self, key: Seq<u8>) -> bool {
        ||| self.table().filter matches Some(f) && f.spec_m() > 0 && !f.may_contain(key)
        ||| forall|i: int|
            0 <= i < self.table().index.len() ==> order::key_less(
                key,
                (#[trigger] self.table().index[i]).first_key,
            )
    }

    /// Looks up `key`. A key that the filter or the index excludes is missing,
    /// whatever the storage does.
    pub fn get<I: Io>(&self, io: &I, key: &[u8]) -> (r: Result<SsTableLookup>)
        requires
            self.wf(),
        ensures
            self.excludes(key@) ==> r == Ok::<SsTableLookup, Error>(SsTableLookup::Missing),
            exists|p: int|
                layout::is_boundary(self.table().index, key@, p) && {
                    let s = #[trigger] layout::lookup(
                        self.content(io.files()),
                        self.table(),
                        key@,
                        p,
                    );
                    match r {
                        Ok(l) => reports(l, s),
                        Err(Error::Corruption(_)) => s is Damaged,
                        Err(e) => {
                            &&& e is Io
                            &&& io.is_reliable() ==> s is Lost || !io.files().contains_key(
                                self.file_name(),
                            )
                        },
                    }
                },
    {
        let candidate = candidate_block(self.index.as_slice(), key);
        let ghost p = match candidate {
            Some(i) => i + 1,
            None => 0,
        };
        let ghost b = self.content(io.files());
        let ghost s = layout::lookup(b, self.table(), key@, p);
        if let Some(f) = &self.bloom {
            if f.bit_count() > 0 && !f.contains(key) {
                return Ok(SsTableLookup::Missing);
            }
        }
        let i = match candidate {
            Some(i) => i,
            None => {
                return Ok(SsTableLookup::Missing);
            },
        };
        let entry = &self.index[i];
        assert(entry@ == self.table().index[p - 1]);
        proof {
            order::lemma_key_irreflexive(key@);
            order::lemma_key_total(key@, entry@.first_key);
            if order::key_less(key@, entry@.first_key) {
                order::lemma_key_transitive(key@, entry@.first_key, key@);
            }
            assert(!self.excludes(key@));
        }
        let block = match read_block(io, self.name.as_slice(), entry) {
            Ok(block) => block,
            Err(e) => {
                return Err(e);
            },
        };
        scan_block_for_key(block.as_slice(), key)
    }

    /// The name of the file that is read.
    pub(crate) fn file(&self) -> (n: Vec<u8>)
        ensures
            n@ == self.file_name(),
    {
        copy_bytes(self.name.as_slice())
    }

    /// Number of data blocks.
    pub fn block_count(&self) -> (n: usize)
        ensures
            n == self.table().index.len(),
    {
        self.index.len()
    }

    /// A walk over all entries in ascending key order.
    pub fn iter(&self) -> (it: SsTableIterator<'_>)
        ensures
            it.reader() == self,
            it.wf(),
            forall|files: io::Files| #[trigger]
                it.rest(files) == layout::entries_from(
                    self.content(files),
                    self.table().index,
                    0,
                ),
            forall|files: io::Files| #[trigger]
                it.sound(files) == layout::sound_from(self.content(files), self.table().index, 0),
    {
        SsTableIterator { table: self, block_idx: 0, current_block: None, pos: 0 }
    }
}

/// Reads a data block and checks its checksum; returns it without that.
fn read_block<I: Io>(io: &I, name: &[u8], entry: &IndexEntry) -> (r: Result<Vec<u8>>)
    ensures
        match r {
            Ok(p) => io.files().contains_key(name@) && layout::block_at(io.files()[name@], entry@)
                == Some(p@) && p@.len() + 4 == entry.length,
            Err(Error::Corruption(_)) => {
                &&& io.files().contains_key(name@)
                &&& !layout::is_lost(io.files()[name@], entry@)
                &&& layout::block_at(io.files()[name@], entry@) is None
            },
            Err(e) => {
                &&& e is Io
                &&& io.is_reliable() ==> !io.files().contains_key(name@) || layout::is_lost(
                    io.files()[name@],
                    entry@,
                )
            },
        },
{
    let block = match io.read_at(name, entry.offset, entry.length as usize) {
        Ok(b) => b,
        Err(e) => {
            return Err(e);
        },
    };
    if block.len() < 4 {
        return Err(corruption("SSTable data block shorter than CRC trailer"));
    }
    let split: usize = block.len() - 4;
    let stored_crc = get_u32(block.as_slice(), split);
    let payload = copy_range(block.as_slice(), 0, split);
    assert(payload@ =~= block@.take(split as int));
    let computed_crc = crc32_hash(payload.as_slice());
    if stored_crc != computed_crc {
        return Err(corruption("SSTable data block CRC mismatch"));
    }
    Ok(payload)
}

/// An entry as it lies in a block.
struct RawBounds {
    key_end: usize,
    end: usize,
    kind: u8,
}

/// The bounds of the entry at byte `p` of `block`.
fn raw_bounds(block: &[u8], p: usize) -> (r: Option<RawBounds>)
    requires
        p <= block@.len(),
    ensures
        match r {
            Some(b) => {
                &&& p + 9 <= b.key_end <= b.end <= block@.len()
                &&& layout::parse_raw(block@.skip(p as int)) == Some(
                    layout::RawEntry {
                        key: block@.subrange(p + 9, b.key_end as int),
                        kind: b.kind,
                        value: block@.subrange(b.key_end as int, b.end as int),
                    },
                )
            },
            None => layout::parse_raw(block@.skip(p as int)) is None,
        },
{
    if block.len() - p < 9 {
        return None;
    }
    let ghost rest = block@.skip(p as int);
    proof {
        assert(rest.subrange(0, 4) =~= block@.subrange(p as int, p + 4));
        assert(rest.subrange(4, 8) =~= block@.subrange(p + 4, p + 8));
    }
    let key_len = get_u32(block, p);
    let value_len = get_u32(block, p + 4);
    let kind = block[p + 8];
    let room: usize = block.len() - p - 9;
    if key_len as u64 + value_len as u64 > room as u64 {
        return None;
    }
    let key_end: usize = p + 9 + key_len as usize;
    let end: usize = key_end + value_len as usize;
    proof {
        let kl = key_len as int;
        let vl = value_len as int;
        assert(rest.subrange(9, 9 + kl) =~= block@.subrange(p + 9, key_end as int));
        assert(rest.subrange(9 + kl, 9 + kl + vl) =~= block@.subrange(key_end as int, end as int));
    }
    Some(RawBounds { key_end, end, kind })
}

/// Parses an index block, whose last four bytes are a CRC32 of the rest.
fn parse_index_block(bytes: &[u8]) -> (r: Result<Vec<IndexEntry>>)
    ensures
        match r {
            Ok(es) => checksum::crc_holds(bytes@) && layout::parse_index(
                bytes@.take(bytes@.len() - 4),
            ) == Some(writer::index_view(es@)),
            Err(e) => e is Corruption && (!checksum::crc_holds(bytes@) || layout::parse_index(
                bytes@.take(bytes@.len() - 4),
            ) is None),
        },
{
    if bytes.len() < 4 {
        return Err(corruption("index block shorter than CRC trailer"));
    }
    let split: usize = bytes.len() - 4;
    let stored_crc = get_u32(bytes, split);
    let payload = slice_subrange(bytes, 0, split);
    assert(payload@ =~= bytes@.take(split as int));
    let computed_crc = crc32_hash(payload);
    if stored_crc != computed_crc {
        return Err(corruption("SSTable index CRC mismatch"));
    }
    let mut entries: Vec<IndexEntry> = Vec::new();
    let mut p: usize = 0;
    proof {
        assert(payload@.skip(0) =~= payload@);
        assert(writer::index_view(entries@) =~= Seq::empty());
        assert(layout::parse_index(payload@) == prepend(
            Seq::empty(),
            layout::parse_index(payload@.skip(0)),
        )) by {
            lemma_prepend_empty(layout::parse_index(payload@));
        }
    }
    while p < payload.len()
        invariant
            p <= payload@.len(),
            layout::parse_index(payload@) == prepend(
                writer::index_view(entries@),
                layout::parse_index(payload@.skip(p as int)),
            ),
            payload@ == bytes@.take(bytes@.len() - 4),
            bytes@.len() >= 4,
            checksum::crc_holds(bytes@),
        decreases payload@.len() - p,
    {
        let ghost rest = payload@.skip(p as int);
        if payload.len() - p < 4 {
            return Err(corruption("truncated index entry: key_len header"));
        }
        assert(rest.subrange(0, 4) =~= payload@.subrange(p as int, p + 4));
        let key_len = get_u32(payload, p);
        if key_len as u64 + 12 > (payload.len() - p - 4) as u64 {
            return Err(corruption("truncated index entry: key or offsets"));
        }
        let key_start: usize = p + 4;
        let key_end: usize = key_start + key_len as usize;
        let key = copy_range(payload, key_start, key_end);
        let offset = get_u64(payload, key_end);
        let length = get_u32(payload, key_end + 8);
        let ghost before = entries@;
        let entry = IndexEntry { first_key: key, offset, length };
        proof {
            let kl = key_len as int;
            assert(rest.subrange(4, 4 + kl) =~= payload@.subrange(key_start as int, key_end as int));
            assert(rest.subrange(4 + kl, 12 + kl) =~= payload@.subrange(
                key_end as int,
                key_end + 8,
            ));
            assert(rest.subrange(12 + kl, 16 + kl) =~= payload@.subrange(
                key_end + 8,
                key_end + 12,
            ));
            assert(rest.skip(16 + kl) =~= payload@.skip(key_end + 12));
            lemma_prepend_one(
                writer::index_view(before),
                entry@,
                layout::parse_index(payload@.skip(key_end + 12)),
            );
        }
        entries.push(entry);
        assert(writer::index_view(entries@) =~= writer::index_view(before).push(entry@));
        p = key_end + 12;
    }
    proof {
        let done = writer::index_view(entries@);
        assert(payload@.skip(p as int) =~= Seq::empty());
        assert(done + Seq::<IndexView>::empty() =~= done);
    }
    Ok(entries)
}

/// `head` in front of `tail`, if there is a tail.
spec fn prepend(head: Seq<IndexView>, tail: Option<Seq<IndexView>>) -> Option<Seq<IndexView>> {
    match tail {
        Some(t) => Some(head + t),
        None => None,
    }
}

proof fn lemma_prepend_empty(tail: Option<Seq<IndexView>>)
    ensures
        prepend(Seq::empty(), tail) == tail,
{
    if tail is Some {
        assert(Seq::<IndexView>::empty() + tail->0 =~= tail->0);
    }
}

proof fn lemma_prepend_one(head: Seq<IndexView>, e: IndexView, tail: Option<Seq<IndexView>>)
    ensures
        prepend(
            head,
            match tail {
                None => None,
                Some(t) => Some(seq![e] + t),
            },
        ) == prepend(head.push(e), tail),
{
    if tail is Some {
        assert(head + (seq![e] + tail->0) =~= head.push(e) + tail->0);
    }
}

/// The block that could hold `key`: the last one that starts at or before it.
/// None if every block starts after it.
pub fn candidate_block(index: &[IndexEntry], key: &[u8]) -> (r: Option<usize>)
    ensures
        match r {
            Some(i) => i < index@.len() && layout::is_boundary(
                writer::index_view(index@),
                key@,
                i + 1,
            ),
            None => layout::is_boundary(writer::index_view(index@), key@, 0),
        },
{
    let mut lo: usize = 0;
    let mut hi: usize = index.len();
    while lo < hi
        invariant
            lo <= hi <= index@.len(),
            lo > 0 ==> order::key_less_eq(index@[lo - 1].first_key@, key@),
            hi < index@.len() ==> order::key_less(key@, index@[hi as int].first_key@),
        decreases hi - lo,
    {
        let mid: usize = lo + (hi - lo) / 2;
        match order_keys(index[mid].first_key.as_slice(), key) {
            KeyOrder::After => {
                hi = mid;
            },
            _ => {
                lo = mid + 1;
            },
        }
    }
    if lo == 0 {
        None
    } else {
        Some(lo - 1)
    }
}

/// Looks for `target` in a data block.
fn scan_block_for_key(block: &[u8], target: &[u8]) -> (r: Result<SsTableLookup>)
    ensures
        match r {
            Ok(l) => reports(l, layout::scan(block@, target@)),
            Err(e) => e is Corruption && layout::scan(block@, target@) is Damaged,
        },
{
    let mut p: usize = 0;
    assert(block@.skip(0) =~= block@);
    while p < block.len()
        invariant
            p <= block@.len(),
            layout::scan(block@, target@) == layout::scan(block@.skip(p as int), target@),
        decreases block@.len() - p,
    {
        let ghost rest = block@.skip(p as int);
        let b = match raw_bounds(block, p) {
            Some(b) => b,
            None => {
                return Err(corruption("truncated entry in data block"));
            },
        };
        match order_keys(slice_subrange(block, p + 9, b.key_end), target) {
            KeyOrder::After => {
                return Ok(SsTableLookup::Missing);
            },
            KeyOrder::Same => {
                proof {
                    order::lemma_key_irreflexive(target@);
                }
                if b.kind == KIND_PUT || b.kind == KIND_VECTOR {
                    return Ok(SsTableLookup::Found(copy_range(block, b.key_end, b.end)));
                } else if b.kind == KIND_DELETE {
                    return Ok(SsTableLookup::Deleted);
                } else {
                    return Err(corruption("unknown SSTable entry kind"));
                }
            },
            KeyOrder::Before => {
                proof {
                    let raw = layout::parse_raw(rest)->0;
                    order::lemma_key_total(raw.key, target@);
                    order::lemma_key_irreflexive(target@);
                    assert(rest.skip(raw.size()) =~= block@.skip(b.end as int));
                }
                p = b.end;
            },
        }
    }
    assert(block@.skip(p as int) =~= Seq::empty());
    Ok(SsTableLookup::Missing)
}

/// Walk over the entries of a table.
pub struct SsTableIterator<'a> {
    table: &'a SsTableReader,
    /// The block that is read.
    block_idx: usize,
    /// Its content, once it is loaded.
    current_block: Option<Vec<u8>>,
    /// Position within it.
    pos: usize,
}

impl<'a> SsTableIterator<'a> {
    /// The table that is walked.
    pub closed spec fn reader(&self) -> &'a SsTableReader {
        self.table
    }

    /// The position lies within the block.
    pub closed spec fn wf(&self) -> bool {
        &&& self.block_idx <= self.table.index@.len()
        &&& self.current_block matches Some(b) ==> self.pos <= b@.len() && b@.len() + 4 <= u32::MAX
            && self.block_idx < self.table.index@.len()
    }

    /// The entries that are still to come, up to the first damage.
    pub closed spec fn rest(&self, files: io::Files) -> Pairs {
        let b = self.table.content(files);
        let index = self.table.table().index;
        match self.current_block {
            None => layout::entries_from(b, index, self.block_idx as int),
            Some(block) => {
                let here = block@.skip(self.pos as int);
                if layout::block_sound(here) {
                    layout::entries_in(here) + layout::entries_from(b, index, self.block_idx + 1)
                } else {
                    layout::entries_in(here)
                }
            },
        }
    }

    /// What is still to come is not damaged.
    pub closed spec fn sound(&self, files: io::Files) -> bool {
        let b = self.table.content(files);
        let index = self.table.table().index;
        match self.current_block {
            None => layout::sound_from(b, index, self.block_idx as int),
            Some(block) => layout::block_sound(block@.skip(self.pos as int)) && layout::sound_from(
                b,
                index,
                self.block_idx + 1,
            ),
        }
    }

    /// What comes next is a block that cannot be read.
    pub closed spec fn at_bad_block(&self, files: io::Files) -> bool {
        let b = self.table.content(files);
        let index = self.table.table().index;
        match self.current_block {
            None => layout::bad_block_from(b, index, self.block_idx as int),
            Some(block) => self.pos >= block@.len() && layout::bad_block_from(
                b,
                index,
                self.block_idx + 1,
            ),
        }
    }

    /// What comes next is a block that the file ends before.
    pub closed spec fn at_lost_block(&self, files: io::Files) -> bool {
        let b = self.table.content(files);
        let index = self.table.table().index;
        match self.current_block {
            None => layout::lost_block_from(b, index, self.block_idx as int),
            Some(block) => self.pos >= block@.len() && layout::lost_block_from(
                b,
                index,
                self.block_idx + 1,
            ),
        }
    }

    /// A block that the file ends before is one of those of the table.
    pub proof fn lemma_lost(&self, files: io::Files)
        requires
            self.at_lost_block(files),
        ensures
            exists|j: int|
                0 <= j < self.reader().table().index.len() && layout::is_lost(
                    self.reader().content(files),
                    #[trigger] self.reader().table().index[j],
                ),
    {
        let i = if self.current_block is None {
            self.block_idx as int
        } else {
            self.block_idx + 1
        };
        layout::lemma_lost_block(self.reader().content(files), self.reader().table().index, i);
    }

    /// Nothing is to come, whatever the files are.
    pub open spec fn is_over(&self) -> bool {
        forall|files: io::Files| #[trigger] self.rest(files).len() == 0 && self.sound(files)
    }

    /// Bytes and blocks that are still to come; each entry takes some.
    closed spec fn left(&self) -> (int, int) {
        match self.current_block {
            None => ((self.table.index@.len() - self.block_idx) as int, 0),
            Some(b) => (
                (self.table.index@.len() - self.block_idx) as int - 1,
                b@.len() - self.pos + 1,
            ),
        }
    }

    /// The next entry. After the last one, and after a block that cannot be
    /// read, the walk is over; a damaged entry is reported again and again.
    pub fn next<I: Io>(&mut self, io: &I) -> (r: Option<Result<(Vec<u8>, Entry)>>)
        requires
            old(self).wf(),
        ensures
            final(self).wf(),
            final(self).reader() == old(self).reader(),
            match r {
                None => {
                    &&& old(self).rest(io.files()).len() == 0
                    &&& old(self).sound(io.files())
                    &&& final(self).is_over()
                },
                Some(Ok((k, e))) => {
                    &&& old(self).rest(io.files()).len() > 0
                    &&& old(self).rest(io.files())[0] == (k@, e@)
                    &&& final(self).rest(io.files()) == old(self).rest(io.files()).skip(1)
                    &&& final(self).sound(io.files()) == old(self).sound(io.files())
                    &&& layout::entry_fits(k@, e@)
                },
                Some(Err(Error::Corruption(_))) => {
                    &&& old(self).rest(io.files()).len() == 0
                    &&& !old(self).sound(io.files())
                    &&& !old(self).at_lost_block(io.files())
                    &&& if old(self).at_bad_block(io.files()) {
                        final(self).is_over()
                    } else {
                        &&& final(self).rest(io.files()).len() == 0
                        &&& !final(self).sound(io.files())
                        &&& !final(self).at_bad_block(io.files())
                    }
                },
                Some(Err(e)) => {
                    &&& e is Io
                    &&& final(self).is_over()
                    &&& io.is_reliable() ==> !io.files().contains_key(
                        old(self).reader().file_name(),
                    ) || old(self).at_lost_block(io.files()) && old(self).rest(
                        io.files(),
                    ).len() == 0 && !old(self).sound(io.files())
                },
            },
    {
        loop
            invariant
                self.wf(),
                self.table == old(self).table,
                self.rest(io.files()) == old(self).rest(io.files()),
                self.sound(io.files()) == old(self).sound(io.files()),
                self.at_bad_block(io.files()) == old(self).at_bad_block(io.files()),
                self.at_lost_block(io.files()) == old(self).at_lost_block(io.files()),
            decreases self.left().0, self.left().1,
        {
            let ghost content = self.table.content(io.files());
            let ghost index = self.table.table().index;
            match self.current_block.take() {
                None => {
                    if self.block_idx >= self.table.index.len() {
                        return None;
                    }
                    let entry = &self.table.index[self.block_idx];
                    assert(entry@ == index[self.block_idx as int]);
                    match read_block(io, self.table.name.as_slice(), entry) {
                        Ok(block) => {
                            assert(block@.skip(0) =~= block@);
                            self.current_block = Some(block);
                            self.pos = 0;
                        },
                        Err(e) => {
                            self.block_idx = self.table.index.len();
                            return Some(Err(e));
                        },
                    }
                },
                Some(block) => {
                    let ghost here = block@.skip(self.pos as int);
                    if self.pos >= block.len() {
                        assert(here =~= Seq::empty());
                        assert(self.block_idx < self.table.index.len());
                        self.block_idx = self.block_idx + 1;
                    } else {
                        let r = decode_entry_at(block.as_slice(), self.pos);
                        match r {
                            Ok((key, entry, end)) => {
                                assert(here.skip(end - self.pos) =~= block@.skip(end as int));
                                self.pos = end;
                                self.current_block = Some(block);
                                assert(self.rest(io.files()) =~= old(self).rest(io.files()).skip(
                                    1,
                                ));
                                return Some(Ok((key, entry)));
                            },
                            Err(e) => {
                                self.current_block = Some(block);
                                return Some(Err(e));
                            },
                        }
                    }
                },
            }
        }
    }
}

/// Decodes the entry at byte `p` of a block; returns it with its end.
fn decode_entry_at(block: &[u8], p: usize) -> (r: Result<(Vec<u8>, Entry, usize)>)
    requires
        p < block@.len(),
    ensures
        match r {
            Ok((k, e, end)) => {
                &&& p + 9 <= end <= block@.len()
                &&& layout::parse_raw(block@.skip(p as int)) matches Some(raw)
                &&& raw.key == k@
                &&& layout::entry_of(raw.kind, raw.value) == Some(e@)
                &&& raw.size() == end - p
                &&& e@.payload().len() <= raw.value.len()
            },
            Err(e) => e is Corruption && (layout::parse_raw(block@.skip(p as int)) matches Some(
                raw,
            ) ==> layout::entry_of(raw.kind, raw.value) is None),
        },
{
    let b = match raw_bounds(block, p) {
        Some(b) => b,
        None => {
            return Err(corruption("truncated entry in data block"));
        },
    };
    let key = copy_range(block, p + 9, b.key_end);
    let entry = if b.kind == KIND_PUT {
        Entry::Put(copy_range(block, b.key_end, b.end))
    } else if b.kind == KIND_VECTOR {
        Entry::Vector(copy_range(block, b.key_end, b.end))
    } else if b.kind == KIND_DELETE {
        Entry::Tombstone
    } else {
        return Err(corruption("unknown SSTable entry kind"));
    };
    Ok((key, entry, b.end))
}

} // verus!
