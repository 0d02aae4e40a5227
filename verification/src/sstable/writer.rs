//! Table writer: builds an immutable file from a sorted stream of entries.
//!
//! [`SsTableWriter::create`] starts a file, [`SsTableWriter::add`] takes the
//! entries in strictly ascending key order, and [`SsTableWriter::finish`]
//! writes the filter, the index and the footer and syncs the file.

use crate::assoc;
use crate::checksum;
use crate::checksum::crc32_hash;
use crate::codec;
use crate::codec::{copy_bytes, push_bytes, push_u32, push_u64};
use crate::error::{invalid_argument, Error, Result};
use crate::io;
use crate::io::Io;
use crate::memtable::{Entry, EntryView};
use crate::order;
use crate::order::{order_keys, KeyOrder};
use crate::sstable::bloom;
use crate::sstable::bloom::BloomFilter;
use crate::sstable::layout;
use crate::sstable::layout::{
    IndexView, Pairs, DATA_BLOCK_TARGET_SIZE, KIND_DELETE, KIND_PUT, KIND_VECTOR,
};
use crate::sstable::roundtrip;
use vstd::prelude::*;

verus! {

/// Where a data block is, and its first key.
#[derive(Debug)]
pub struct IndexEntry {
    pub first_key: Vec<u8>,
    pub offset: u64,
    pub length: u32,
}

impl View for IndexEntry {
    type V = IndexView;

    open spec fn view(&self) -> IndexView {
        IndexView { first_key: self.first_key@, offset: self.offset, length: self.length }
    }
}

/// The index entries `es`.
pub open spec fn index_view(es: Seq<IndexEntry>) -> Seq<IndexView> {
    es.map_values(|e: IndexEntry| e@)
}

/// Files other than `name` are the same in `before` and `after`.
pub open spec fn only_changes(before: io::Files, name: Seq<u8>, after: io::Files) -> bool {
    forall|o: Seq<u8>|
        o != name ==> (#[trigger] after.contains_key(o) == before.contains_key(o)) && (
        before.contains_key(o) ==> after[o] == before[o])
}

/// Builds a table from a sorted stream of entries.
pub struct SsTableWriter {
    name: Vec<u8>,
    current_block: Vec<u8>,
    current_block_first_key: Option<Vec<u8>>,
    index_entries: Vec<IndexEntry>,
    next_block_offset: u64,
    last_key: Option<Vec<u8>>,
    bloom: Option<BloomFilter>,
    added: Ghost<Pairs>,
}

impl SsTableWriter {
    /// The file that is written.
    pub closed spec fn file_name(&self) -> Seq<u8> {
        self.name@
    }

    /// The entries added so far.
    pub closed spec fn pairs(&self) -> Pairs {
        self.added@
    }

    /// The filter of the keys added so far.
    pub closed spec fn filter(&self) -> Option<BloomFilter> {
        self.bloom
    }

    /// The blocks that are complete.
    pub open spec fn closed_blocks(&self) -> Seq<Pairs> {
        let blocks = layout::blocks_of(self.pairs());
        if blocks.len() == 0 {
            blocks
        } else {
            blocks.drop_last()
        }
    }

    /// What is in the file so far: the complete blocks.
    pub open spec fn flushed(&self) -> Seq<u8> {
        layout::data_bytes(self.closed_blocks())
    }

    /// The file holds what was flushed.
    pub open spec fn in_step(&self, files: io::Files) -> bool {
        files.contains_key(self.file_name()) && files[self.file_name()] == self.flushed()
    }

    /// The entries ascend and fit, none has an empty key, and the parts in
    /// memory are those of these entries.
    pub closed spec fn wf(&self) -> bool {
        let s = self.added@;
        let blocks = layout::blocks_of(s);
        &&& assoc::sorted_pairs(s)
        &&& layout::all_fit(s)
        &&& forall|i: int| 0 <= i < s.len() ==> (#[trigger] s[i]).0.len() > 0
        &&& layout::filter_fits(self.bloom, s)
        &&& self.next_block_offset == self.flushed().len()
        &&& index_view(self.index_entries@) == layout::index_of(self.closed_blocks())
        &&& if s.len() == 0 {
            &&& self.current_block@.len() == 0
            &&& self.current_block_first_key is None
            &&& self.last_key is None
        } else {
            &&& blocks.len() > 0
            &&& blocks.last().len() > 0
            &&& self.current_block@ == layout::block_payload(blocks.last())
            &&& self.current_block@.len() > 0
            &&& self.current_block@.len() + 4 <= u32::MAX
            &&& self.current_block_first_key matches Some(k) && k@ == blocks.last()[0].0
            &&& self.last_key matches Some(k) && k@ == s.last().0
        }
    }

    /// What was added can be written, if the file is not too long.
    pub proof fn lemma_writable(&self)
        requires
            self.wf(),
            layout::table_bytes(self.pairs(), self.filter()).len() <= u64::MAX,
        ensures
            roundtrip::writable(self.pairs(), self.filter()),
    {
    }

    /// The entries that were added ascend.
    pub proof fn lemma_ascends(&self)
        requires
            self.wf(),
        ensures
            assoc::sorted_pairs(self.pairs()),
    {
    }

    /// The key of the next entry is refused: it is empty or not larger than the
    /// last one.
    pub open spec fn refuses_key(&self, key: Seq<u8>) -> bool {
        ||| key.len() == 0
        ||| self.pairs().len() > 0 && !order::key_less(self.pairs().last().0, key)
    }

    /// A key is refused if it is empty or not larger than every key that was
    /// added, and no other is.
    pub proof fn lemma_refused_key(&self, key: Seq<u8>)
        requires
            self.wf(),
        ensures
            self.refuses_key(key) <==> key.len() == 0 || exists|i: int|
                0 <= i < self.pairs().len() && !order::key_less(
                    (#[trigger] self.pairs()[i]).0,
                    key,
                ),
    {
        let s = self.pairs();
        self.lemma_ascends();
        if s.len() > 0 && order::key_less(s.last().0, key) {
            assert forall|i: int| 0 <= i < s.len() implies order::key_less(
                (#[trigger] s[i]).0,
                key,
            ) by {
                if i < s.len() - 1 {
                    assert(order::key_less(s[i].0, s[s.len() - 1].0));
                    order::lemma_key_transitive(s[i].0, s.last().0, key);
                }
            }
        } else if s.len() > 0 {
            assert(!order::key_less(s[s.len() - 1].0, key));
        }
    }

    /// Why the next entry is refused: its key is, or the file would be too long
    /// to address.
    pub open spec fn refuses(&self, key: Seq<u8>, e: EntryView) -> bool {
        ||| self.refuses_key(key)
        ||| flushed_len(self.pairs().push((key, e))) > u64::MAX
    }

    /// Starts a table in the file `name`, which must be new or empty. The
    /// filter is sized for `expected_keys`; with zero bits per key there is
    /// none.
    pub fn create<I: Io>(
        io: &mut I,
        name: &[u8],
        expected_keys: usize,
        bloom_bits_per_key: u32,
    ) -> (r: Result<SsTableWriter>)
        ensures
            match r {
                Ok(w) => {
                    &&& w.wf()
                    &&& w.file_name() == name@
                    &&& w.pairs().len() == 0
                    &&& w.in_step(final(io).files())
                    &&& !old(io).files().contains_key(name@) || old(io).files()[name@].len() == 0
                    &&& final(io).files() == old(io).files().insert(name@, Seq::empty())
                    &&& w.filter() is Some == (bloom_bits_per_key > 0)
                    &&& w.filter() matches Some(f) ==> f.wf() && f.spec_m() == bloom::bit_count_for(
                        expected_keys as int,
                        bloom_bits_per_key as int,
                    ) && f.spec_k() == bloom::hash_count_for(bloom_bits_per_key as int)
                },
                Err(Error::InvalidArgument(_)) => {
                    &&& old(io).files().contains_key(name@)
                    &&& old(io).files()[name@].len() > 0
                    &&& final(io).files() == old(io).files()
                },
                Err(e) => {
                    &&& e is Io
                    &&& !old(io).is_reliable()
                    &&& final(io).files() == old(io).files() || (!old(io).files().contains_key(
                        name@,
                    ) && final(io).files() == old(io).files().insert(name@, Seq::empty()))
                },
            },
            final(io).is_reliable() == old(io).is_reliable(),
            forall|o: Seq<u8>|
                (o != name@ || old(io).files().contains_key(name@)) && old(io).is_synced(o)
                    ==> #[trigger] final(io).is_synced(o),
            forall|o: Seq<u8>|
                (o != name@ || old(io).files().contains_key(name@)) && old(io).is_linked(o)
                    ==> #[trigger] final(io).is_linked(o),
    {
        let ghost before = io.files();
        match io.open_append(name) {
            Ok(_) => {},
            Err(e) => {
                return Err(e);
            },
        }
        match io.is_empty(name) {
            Ok(fresh) => {
                if !fresh {
                    return Err(invalid_argument("SSTable file already exists and is non-empty"));
                }
            },
            Err(e) => {
                return Err(e);
            },
        }
        proof {
            assert(io.files()[name@] =~= Seq::<u8>::empty());
            assert(io.files() =~= before.insert(name@, Seq::empty()));
        }
        let bloom = if bloom_bits_per_key > 0 {
            Some(BloomFilter::new(expected_keys, bloom_bits_per_key))
        } else {
            None
        };
        let w = SsTableWriter {
            name: copy_bytes(name),
            current_block: Vec::new(),
            current_block_first_key: None,
            index_entries: Vec::new(),
            next_block_offset: 0,
            last_key: None,
            bloom,
            added: Ghost(Seq::empty()),
        };
        proof {
            if bloom is Some {
                lemma_empty_filter(bloom->0);
            }
            assert(index_view(w.index_entries@) =~= layout::index_of(w.closed_blocks()));
        }
        Ok(w)
    }

    /// Adds one entry. Its key must be larger than every key added so far. The
    /// lengths of an entry that is taken have to fit in the format.
    pub fn add<I: Io>(&mut self, io: &mut I, key: &[u8], entry: &Entry) -> (r: Result<()>)
        requires
            old(self).wf(),
            !old(self).refuses_key(key@) ==> layout::entry_fits(key@, entry@),
        ensures
            final(self).wf(),
            final(self).file_name() == old(self).file_name(),
            match r {
                Ok(_) => {
                    &&& !old(self).refuses(key@, entry@)
                    &&& final(self).pairs() == old(self).pairs().push((key@, entry@))
                    &&& old(self).in_step(old(io).files()) ==> final(self).in_step(
                        final(io).files(),
                    )
                },
                Err(Error::InvalidArgument(_)) => {
                    &&& old(self).refuses(key@, entry@)
                    &&& *final(self) == *old(self)
                    &&& final(io).files() == old(io).files()
                },
                Err(e) => {
                    &&& e is Io
                    &&& !old(self).refuses(key@, entry@)
                    &&& final(self).pairs() == old(self).pairs()
                    &&& old(io).is_reliable() ==> !old(io).files().contains_key(
                        old(self).file_name(),
                    )
                },
            },
            final(io).is_reliable() == old(io).is_reliable(),
            only_changes(old(io).files(), old(self).file_name(), final(io).files()),
            final(self).filter() is Some == old(self).filter() is Some,
            final(self).filter() matches Some(f) ==> f.wf() && f.spec_m() == old(
                self,
            ).filter()->0.spec_m() && f.spec_k() == old(self).filter()->0.spec_k(),
            forall|o: Seq<u8>|
                o != old(self).file_name() && old(io).is_synced(o) ==>
                    #[trigger] final(io).is_synced(o),
            forall|o: Seq<u8>| old(io).is_linked(o) ==> #[trigger] final(io).is_linked(o),
    {
        let ghost s = self.added@;
        let ghost e = entry@;
        let ghost t = s.push((key@, e));
        let ghost files0 = io.files();
        proof {
            assert(t.drop_last() =~= s);
        }
        if key.len() == 0 {
            return Err(invalid_argument("empty key"));
        }
        if let Some(prev) = &self.last_key {
            match order_keys(prev.as_slice(), key) {
                KeyOrder::Before => {},
                _ => {
                    return Err(invalid_argument("keys must be strictly increasing"));
                },
            }
        }
        let entry_size = encoded_entry_size(key, entry);
        proof {
            lemma_add_blocks(s, key@, e);
        }
        if self.current_block.len() != 0 && self.current_block.len() as u64 + entry_size as u64
            > DATA_BLOCK_TARGET_SIZE as u64 {
            if self.next_block_offset > u64::MAX - (self.current_block.len() as u64 + 4) {
                proof {
                    lemma_closed_len(s, key@, e);
                }
                return Err(invalid_argument("table too large"));
            }
            proof {
                lemma_closed_len(s, key@, e);
            }
            match self.flush_current_block(io) {
                Ok(_) => {},
                Err(e) => {
                    return Err(e);
                },
            }
        } else {
            proof {
                lemma_closed_same(s, key@, e);
            }
        }
        if self.current_block_first_key.is_none() {
            self.current_block_first_key = Some(copy_bytes(key));
        }
        encode_entry(key, entry, &mut self.current_block);
        self.last_key = Some(copy_bytes(key));
        match self.bloom.take() {
            Some(mut f) => {
                let ghost f0 = f;
                f.insert(key);
                proof {
                    lemma_filter_grows(f0, s, key@, e, f);
                }
                self.bloom = Some(f);
            },
            None => {},
        }
        self.added = Ghost(t);
        proof {
            assoc::lemma_find_push(s, (key@, e), key@);
            roundtrip::lemma_blocks(t);
            let blocks = layout::blocks_of(t);
            assert(layout::all_fit(t));
            assert(blocks[blocks.len() - 1] == blocks.last());
            roundtrip::lemma_entry_read_back(key@, e, Seq::empty());
        }
        Ok(())
    }

    /// Writes the current block to the file and starts an empty one.
    fn flush_current_block<I: Io>(&mut self, io: &mut I) -> (r: Result<()>)
        requires
            old(self).wf(),
            old(self).added@.len() > 0,
            old(self).next_block_offset + old(self).current_block@.len() + 4 <= u64::MAX,
        ensures
            final(self).name@ == old(self).name@,
            final(self).added@ == old(self).added@,
            final(self).bloom == old(self).bloom,
            final(self).last_key == old(self).last_key,
            match r {
                Ok(_) => {
                    let blocks = layout::blocks_of(old(self).added@);
                    &&& final(io).files().contains_key(old(self).name@)
                    &&& final(self).current_block@.len() == 0
                    &&& final(self).current_block_first_key is None
                    &&& final(self).next_block_offset == layout::data_bytes(blocks).len()
                    &&& index_view(final(self).index_entries@) == layout::index_of(blocks)
                    &&& old(self).in_step(old(io).files()) ==> final(io).files().contains_key(
                        old(self).name@,
                    ) && final(io).files()[old(self).name@] == layout::data_bytes(blocks)
                },
                Err(e) => {
                    &&& e is Io
                    &&& *final(self) == *old(self)
                    &&& old(io).is_reliable() ==> !old(io).files().contains_key(old(self).name@)
                },
            },
            final(io).is_reliable() == old(io).is_reliable(),
            only_changes(old(io).files(), old(self).name@, final(io).files()),
            forall|o: Seq<u8>|
                o != old(self).name@ && old(io).is_synced(o) ==> #[trigger] final(io).is_synced(o),
            forall|o: Seq<u8>| old(io).is_linked(o) ==> #[trigger] final(io).is_linked(o),
    {
        let ghost blocks = layout::blocks_of(self.added@);
        let ghost payload = self.current_block@;
        let crc = crc32_hash(self.current_block.as_slice());
        let mut block: Vec<u8> = copy_bytes(self.current_block.as_slice());
        push_u32(&mut block, crc);
        proof {
            checksum::lemma_with_crc(payload);
            assert(block@ == checksum::with_crc(payload));
        }
        let block_offset = self.next_block_offset;
        let block_length: u32 = block.len() as u32;
        match io.append(self.name.as_slice(), block.as_slice()) {
            Ok(_) => {},
            Err(e) => {
                return Err(e);
            },
        }
        self.next_block_offset = block_offset + block_length as u64;
        let first_key = match self.current_block_first_key.take() {
            Some(k) => k,
            None => Vec::new(),
        };
        self.index_entries.push(
            IndexEntry { first_key, offset: block_offset, length: block_length },
        );
        self.current_block.clear();
        proof {
            assert(index_view(self.index_entries@) =~= layout::index_of(blocks));
        }
        Ok(())
    }

    /// Writes what is left of the table: the last block, the filter, the
    /// index and the footer; then syncs the file.
    pub fn finish<I: Io>(self, io: &mut I) -> (r: Result<()>)
        requires
            self.wf(),
        ensures
            match r {
                Ok(_) => {
                    &&& layout::table_bytes(self.pairs(), self.filter()).len() <= u64::MAX
                    &&& final(io).is_synced(self.file_name())
                    &&& self.in_step(old(io).files()) ==> final(io).files() == old(
                        io,
                    ).files().insert(
                        self.file_name(),
                        layout::table_bytes(self.pairs(), self.filter()),
                    )
                },
                Err(Error::InvalidArgument(_)) => layout::table_bytes(
                    self.pairs(),
                    self.filter(),
                ).len() > u64::MAX,
                Err(e) => e is Io && (old(io).is_reliable() ==> !old(io).files().contains_key(
                    self.file_name(),
                )),
            },
            final(io).is_reliable() == old(io).is_reliable(),
            only_changes(old(io).files(), self.file_name(), final(io).files()),
            forall|o: Seq<u8>|
                o != self.file_name() && old(io).is_synced(o) ==> #[trigger] final(io).is_synced(o),
            forall|o: Seq<u8>| old(io).is_linked(o) ==> #[trigger] final(io).is_linked(o),
    {
        let mut w = self;
        let ghost s = w.added@;
        let ghost f = w.bloom;
        let ghost files0 = io.files();
        let ghost name = w.name@;
        let ghost synced = w.in_step(files0);
        let ghost blocks = layout::blocks_of(s);
        let ghost data = layout::data_bytes(blocks);
        proof {
            lemma_table_len(s, f);
            lemma_last_block(s);
        }
        let block_len: u64 = if w.current_block.len() != 0 {
            w.current_block.len() as u64 + 4
        } else {
            0
        };
        if w.next_block_offset > u64::MAX - block_len {
            return Err(invalid_argument("table too large"));
        }
        if w.current_block.len() != 0 {
            match w.flush_current_block(io) {
                Ok(_) => {},
                Err(e) => {
                    return Err(e);
                },
            }
        }
        let ghost files1 = io.files();
        proof {
            assert(w.next_block_offset == data.len());
            assert(index_view(w.index_entries@) == layout::index_of(blocks));
            assert(synced ==> files1.contains_key(name) && files1[name] == data);
        }
        let data_len = w.next_block_offset;
        let (tail, bloom_length) = match &w.bloom {
            Some(f) => {
                let b = f.encode();
                let n: u64 = b.len() as u64;
                (b, n)
            },
            None => (Vec::new(), 0),
        };
        proof {
            assert(tail@ =~= layout::bloom_bytes(f));
        }
        if bloom_length > u64::MAX - data_len {
            return Err(invalid_argument("table too large"));
        }
        let has_bloom = w.bloom.is_some();
        if has_bloom {
            match io.append(w.name.as_slice(), tail.as_slice()) {
                Ok(_) => {},
                Err(e) => {
                    return Err(e);
                },
            }
        }
        let ghost files2 = io.files();
        proof {
            assert(synced ==> files2.contains_key(name) && files2[name] =~= data
                + layout::bloom_bytes(f));
        }
        let bloom_offset: u64 = if has_bloom {
            data_len
        } else {
            0
        };
        let index_offset: u64 = data_len + bloom_length;
        let mut index_block: Vec<u8> = Vec::new();
        let n = w.index_entries.len();
        for i in 0..n
            invariant
                n == w.index_entries@.len(),
                index_block@ == layout::index_payload(
                    index_view(w.index_entries@).take(i as int),
                ),
        {
            encode_index_entry(&w.index_entries[i], &mut index_block);
            proof {
                let all = index_view(w.index_entries@);
                assert(all.take(i + 1).drop_last() =~= all.take(i as int));
                assert(all.take(i + 1).last() == w.index_entries@[i as int]@);
            }
        }
        proof {
            let all = index_view(w.index_entries@);
            assert(all.take(n as int) =~= all);
        }
        let index_crc = crc32_hash(index_block.as_slice());
        push_u32(&mut index_block, index_crc);
        assert(index_block@ == layout::index_bytes(s));
        let index_length: u64 = index_block.len() as u64;
        if index_length > u64::MAX - index_offset || 40 > u64::MAX - index_offset - index_length {
            return Err(invalid_argument("table too large"));
        }
        match io.append(w.name.as_slice(), index_block.as_slice()) {
            Ok(_) => {},
            Err(e) => {
                return Err(e);
            },
        }
        let ghost files3 = io.files();
        proof {
            assert(synced ==> files3.contains_key(name) && files3[name] =~= layout::table_body(
                s,
                f,
            ));
        }
        let footer = encode_footer(index_offset, index_length, bloom_offset, bloom_length);
        match io.append(w.name.as_slice(), footer.as_slice()) {
            Ok(_) => {},
            Err(e) => {
                return Err(e);
            },
        }
        proof {
            if synced {
                assert(io.files()[name] =~= layout::table_bytes(s, f));
                assert(io.files() =~= files0.insert(name, layout::table_bytes(s, f)));
            }
        }
        io.sync(w.name.as_slice())
    }
}

/// `f` is a filter for `keys` keys with `bits` bits for each; none for zero
/// bits.
pub open spec fn sized_for(f: Option<BloomFilter>, keys: int, bits: int) -> bool {
    &&& f is Some == (bits > 0)
    &&& f matches Some(f) ==> f.wf() && f.spec_m() == bloom::bit_count_for(keys, bits)
        && f.spec_k() == bloom::hash_count_for(bits)
}

/// A table of the entries `s`, with a filter for `keys` keys, does not fit in
/// memory.
pub open spec fn too_long(s: Pairs, keys: int, bits: int) -> bool {
    exists|f: Option<BloomFilter>|
        sized_for(f, keys, bits) && (#[trigger] layout::table_bytes(s, f)).len() > usize::MAX
}

/// With more entries, no fewer bytes are flushed.
proof fn lemma_flushed_grows(s: Pairs, i: int, j: int)
    requires
        0 <= i <= j <= s.len(),
    ensures
        flushed_len(s.take(i)) <= flushed_len(s.take(j)),
    decreases j - i,
{
    if i < j {
        let a = s.take(j - 1);
        let (k, e) = s[j - 1];
        lemma_flushed_grows(s, i, j - 1);
        assert(s.take(j) =~= a.push((k, e)));
        let blocks = layout::blocks_of(a);
        if blocks.len() == 0 || layout::block_payload(blocks.last()).len() + layout::entry_size(
            k,
            e,
        ) <= DATA_BLOCK_TARGET_SIZE {
            lemma_closed_same(a, k, e);
        } else {
            lemma_closed_len(a, k, e);
        }
    }
}

/// If entries are refused because the file would be too long, the table does
/// not fit in memory.
pub(crate) proof fn lemma_refused_is_long(
    s: Pairs,
    i: int,
    f: Option<BloomFilter>,
    keys: int,
    bits: int,
)
    requires
        0 <= i <= s.len(),
        flushed_len(s.take(i)) > u64::MAX,
        sized_for(f, keys, bits),
    ensures
        too_long(s, keys, bits),
{
    lemma_flushed_grows(s, i, s.len() as int);
    assert(s.take(s.len() as int) =~= s);
    lemma_table_len(s, f);
    lemma_last_block(s);
    assert(layout::table_bytes(s, f).len() > usize::MAX);
}

/// Number of bytes of the complete blocks, with the entries `s`.
pub open spec fn flushed_len(s: Pairs) -> nat {
    let blocks = layout::blocks_of(s);
    layout::data_bytes(
        if blocks.len() == 0 {
            blocks
        } else {
            blocks.drop_last()
        },
    ).len()
}

proof fn lemma_empty_filter(f: BloomFilter)
    requires
        f.wf(),
        f.spec_m() > 0,
        forall|j: int| 0 <= j < f.spec_m() ==> !#[trigger] bloom::bit_at(f.spec_bits(), j),
    ensures
        layout::filter_covers(f, Seq::empty()),
{
}

/// Inserting the key of a new entry keeps the filter that of all entries.
proof fn lemma_filter_grows(f: BloomFilter, s: Pairs, key: Seq<u8>, e: EntryView, g: BloomFilter)
    requires
        layout::filter_covers(f, s),
        g.wf(),
        g.spec_m() == f.spec_m(),
        g.spec_k() == f.spec_k(),
        forall|j: int|
            0 <= j < f.spec_m() ==> #[trigger] bloom::bit_at(g.spec_bits(), j) == (bloom::bit_at(
                f.spec_bits(),
                j,
            ) || bloom::touches(key, f.spec_k(), f.spec_m(), j)),
    ensures
        layout::filter_covers(g, s.push((key, e))),
{
    let t = s.push((key, e));
    assert forall|j: int| 0 <= j < g.spec_m() implies (#[trigger] bloom::bit_at(g.spec_bits(), j)
        <==> exists|i: int|
        0 <= i < t.len() && bloom::touches((#[trigger] t[i]).0, g.spec_k(), g.spec_m(), j)) by {
        if bloom::bit_at(f.spec_bits(), j) {
            let i = choose|i: int|
                0 <= i < s.len() && bloom::touches(
                    (#[trigger] s[i]).0,
                    f.spec_k(),
                    f.spec_m(),
                    j,
                );
            assert(t[i] == s[i]);
        }
        if bloom::touches(key, f.spec_k(), f.spec_m(), j) {
            assert(t[s.len() as int].0 == key);
        }
        if exists|i: int|
            0 <= i < t.len() && bloom::touches((#[trigger] t[i]).0, g.spec_k(), g.spec_m(), j) {
            let i = choose|i: int|
                0 <= i < t.len() && bloom::touches(
                    (#[trigger] t[i]).0,
                    g.spec_k(),
                    g.spec_m(),
                    j,
                );
            if i < s.len() {
                assert(s[i] == t[i]);
            }
        }
    }
}

/// How one more entry changes the blocks.
proof fn lemma_add_blocks(s: Pairs, key: Seq<u8>, e: EntryView)
    ensures
        ({
            let t = s.push((key, e));
            let before = layout::blocks_of(s);
            let after = layout::blocks_of(t);
            if before.len() > 0 && layout::block_payload(before.last()).len() + layout::entry_size(
                key,
                e,
            ) <= DATA_BLOCK_TARGET_SIZE {
                &&& after == before.drop_last().push(before.last().push((key, e)))
                &&& after.drop_last() == before.drop_last()
                &&& layout::block_payload(after.last()) == layout::block_payload(before.last())
                    + layout::entry_bytes(key, e)
            } else {
                &&& after == before.push(seq![(key, e)])
                &&& after.drop_last() == before
                &&& layout::block_payload(after.last()) == layout::entry_bytes(key, e)
            }
        }),
{
    let t = s.push((key, e));
    let before = layout::blocks_of(s);
    let after = layout::blocks_of(t);
    assert(t.drop_last() =~= s);
    if before.len() > 0 && layout::block_payload(before.last()).len() + layout::entry_size(key, e)
        <= DATA_BLOCK_TARGET_SIZE {
        assert(after.drop_last() =~= before.drop_last());
        assert(before.last().push((key, e)).drop_last() =~= before.last());
    } else {
        assert(after.drop_last() =~= before);
        reveal_with_fuel(layout::block_payload, 2);
        assert(seq![(key, e)].drop_last() =~= Seq::empty());
        assert(layout::block_payload(seq![(key, e)]) =~= layout::entry_bytes(key, e));
    }
}

/// A new block completes the one before it.
proof fn lemma_closed_len(s: Pairs, key: Seq<u8>, e: EntryView)
    requires
        layout::blocks_of(s).len() > 0,
        layout::block_payload(layout::blocks_of(s).last()).len() + layout::entry_size(key, e)
            > DATA_BLOCK_TARGET_SIZE,
    ensures
        flushed_len(s.push((key, e))) == layout::data_bytes(
            layout::blocks_of(s).drop_last(),
        ).len() + layout::block_payload(layout::blocks_of(s).last()).len() + 4,
{
    lemma_add_blocks(s, key, e);
    checksum::lemma_with_crc(
        layout::block_payload(layout::blocks_of(s).last()),
    );
}

/// An entry that goes into the current block completes none.
proof fn lemma_closed_same(s: Pairs, key: Seq<u8>, e: EntryView)
    requires
        layout::blocks_of(s).len() == 0 || layout::block_payload(
            layout::blocks_of(s).last(),
        ).len() + layout::entry_size(key, e) <= DATA_BLOCK_TARGET_SIZE,
    ensures
        flushed_len(s.push((key, e))) == flushed_len(s),
{
    lemma_add_blocks(s, key, e);
}

/// The length of a table is the sum of the lengths of its parts.
proof fn lemma_table_len(s: Pairs, f: Option<BloomFilter>)
    ensures
        layout::table_bytes(s, f).len() == layout::data_bytes(layout::blocks_of(s)).len()
            + layout::bloom_bytes(f).len() + layout::index_bytes(s).len() + 40,
{
    codec::lemma_le64((layout::data_bytes(layout::blocks_of(s)).len() + layout::bloom_bytes(f).len()) as u64);
    codec::lemma_le64(layout::index_bytes(s).len() as u64);
    codec::lemma_le64(layout::data_bytes(layout::blocks_of(s)).len() as u64);
    codec::lemma_le64(0);
    codec::lemma_le64(layout::bloom_bytes(f).len() as u64);
}

/// The last block makes up the rest of the data.
proof fn lemma_last_block(s: Pairs)
    ensures
        layout::blocks_of(s).len() > 0 ==> layout::data_bytes(layout::blocks_of(s)).len()
            == layout::data_bytes(layout::blocks_of(s).drop_last()).len() + layout::block_payload(
            layout::blocks_of(s).last(),
        ).len() + 4,
        s.len() == 0 ==> layout::blocks_of(s).len() == 0,
{
    if layout::blocks_of(s).len() > 0 {
        checksum::lemma_with_crc(
            layout::block_payload(layout::blocks_of(s).last()),
        );
    }
}

/// Number of bytes of an encoded entry.
fn encoded_entry_size(key: &[u8], entry: &Entry) -> (n: usize)
    requires
        layout::entry_fits(key@, entry@),
    ensures
        n == layout::entry_size(key@, entry@),
{
    4 + 4 + 1 + key.len() + entry.payload().len()
}

/// Appends an encoded entry.
fn encode_entry(key: &[u8], entry: &Entry, out: &mut Vec<u8>)
    requires
        layout::entry_fits(key@, entry@),
    ensures
        final(out)@ == old(out)@ + layout::entry_bytes(key@, entry@),
{
    let kind_byte: u8 = match entry {
        Entry::Put(_) => KIND_PUT,
        Entry::Vector(_) => KIND_VECTOR,
        Entry::Tombstone => KIND_DELETE,
    };
    let value = entry.payload();
    push_u32(out, key.len() as u32);
    push_u32(out, value.len() as u32);
    out.push(kind_byte);
    push_bytes(out, key);
    push_bytes(out, value);
    assert(out@ =~= old(out)@ + layout::entry_bytes(key@, entry@));
}

/// Appends an encoded index entry.
fn encode_index_entry(entry: &IndexEntry, out: &mut Vec<u8>)
    ensures
        final(out)@ == old(out)@ + layout::index_entry_bytes(entry@),
{
    push_u32(out, entry.first_key.len() as u32);
    push_bytes(out, entry.first_key.as_slice());
    push_u64(out, entry.offset);
    push_u32(out, entry.length);
    assert(out@ =~= old(out)@ + layout::index_entry_bytes(entry@));
}

/// The bytes of the footer.
fn encode_footer(index_off: u64, index_len: u64, bloom_off: u64, bloom_len: u64) -> (b: Vec<u8>)
    ensures
        b@ == layout::footer(index_off, index_len, bloom_off, bloom_len),
{
    let mut out: Vec<u8> = Vec::new();
    push_u64(&mut out, index_off);
    push_u64(&mut out, index_len);
    push_u64(&mut out, bloom_off);
    push_u64(&mut out, bloom_len);
    let magic = footer_magic();
    push_bytes(&mut out, magic.as_slice());
    assert(out@ =~= layout::footer(index_off, index_len, bloom_off, bloom_len));
    out
}

/// The bytes of the magic.
pub(crate) fn footer_magic() -> (m: Vec<u8>)
    ensures
        m@ == layout::magic(),
{
    let m: Vec<u8> = vec![83u8, 65u8, 83u8, 84u8, 83u8, 83u8, 84u8, 50u8];
    assert(m@ =~= layout::magic());
    m
}

} // verus!
