//! Table format.
//!
//! ```text
//! data block | ... | data block | filter block | index block | footer
//! ```
//!
//! - A data block holds entries in ascending key order, each as key length
//!   (4), value length (4), kind (1), key, value; then a CRC32 of all that.
//!   A block is closed before it would grow past [`DATA_BLOCK_TARGET_SIZE`].
//! - The filter block is an encoded Bloom filter; it may be missing.
//! - The index block holds for each data block its first key, as key length
//!   (4), key, offset (8), length (4); then a CRC32.
//! - The footer is index offset, index length, filter offset, filter length
//!   (8 each) and the magic `SASTSST2`. Without a filter both its numbers are
//!   zero.

use crate::assoc;
use crate::checksum;
use crate::codec;
use crate::memtable::EntryView;
use crate::order;
use crate::sstable::bloom;
use crate::sstable::bloom::BloomFilter;
use vstd::prelude::*;

verus! {

/// Bytes of the footer.
pub const FOOTER_LEN: usize = 40;

/// Target size of a data block.
pub const DATA_BLOCK_TARGET_SIZE: usize = 4096;

/// Kind byte of a value.
pub const KIND_PUT: u8 = 0x01;

/// Kind byte of a tombstone.
pub const KIND_DELETE: u8 = 0x02;

/// Kind byte of an embedding.
pub const KIND_VECTOR: u8 = 0x03;

/// The entries of a table, in order.
pub type Pairs = Seq<(Seq<u8>, EntryView)>;

/// The last bytes of every table: `SASTSST2`.
pub open spec fn magic() -> Seq<u8> {
    seq![83u8, 65u8, 83u8, 84u8, 83u8, 83u8, 84u8, 50u8]
}

/// The kind byte of `e`.
pub open spec fn entry_kind(e: EntryView) -> u8 {
    match e {
        EntryView::Put(_) => KIND_PUT,
        EntryView::Vector(_) => KIND_VECTOR,
        EntryView::Tombstone => KIND_DELETE,
    }
}

/// The entry that a kind byte and value bytes stand for.
pub open spec fn entry_of(kind: u8, value: Seq<u8>) -> Option<EntryView> {
    if kind == KIND_PUT {
        Some(EntryView::Put(value))
    } else if kind == KIND_VECTOR {
        Some(EntryView::Vector(value))
    } else if kind == KIND_DELETE {
        Some(EntryView::Tombstone)
    } else {
        None
    }
}

/// The bytes of an entry.
pub open spec fn entry_bytes(k: Seq<u8>, e: EntryView) -> Seq<u8> {
    codec::le32(k.len() as u32) + codec::le32(e.payload().len() as u32) + seq![entry_kind(e)] + k
        + e.payload()
}

/// Number of bytes of an entry.
pub open spec fn entry_size(k: Seq<u8>, e: EntryView) -> int {
    9int + k.len() + e.payload().len()
}

/// An entry that fits in a block by itself: its length can be written down.
pub open spec fn entry_fits(k: Seq<u8>, e: EntryView) -> bool {
    entry_size(k, e) + 4 <= u32::MAX
}

/// All entries fit.
pub open spec fn all_fit(s: Pairs) -> bool {
    forall|i: int| 0 <= i < s.len() ==> entry_fits((#[trigger] s[i]).0, s[i].1)
}

/// The bytes of the entries `s`.
pub open spec fn block_payload(s: Pairs) -> Seq<u8>
    decreases s.len(),
{
    if s.len() == 0 {
        Seq::empty()
    } else {
        block_payload(s.drop_last()) + entry_bytes(s.last().0, s.last().1)
    }
}

/// How the entries `s` fall into blocks: each goes into the last block while
/// that stays within the target size, else into a new one.
pub open spec fn blocks_of(s: Pairs) -> Seq<Pairs>
    decreases s.len(),
{
    if s.len() == 0 {
        Seq::empty()
    } else {
        let before = blocks_of(s.drop_last());
        let p = s.last();
        if before.len() > 0 && block_payload(before.last()).len() + entry_size(p.0, p.1)
            <= DATA_BLOCK_TARGET_SIZE {
            before.drop_last().push(before.last().push(p))
        } else {
            before.push(seq![p])
        }
    }
}

/// The bytes of the data blocks `blocks`.
pub open spec fn data_bytes(blocks: Seq<Pairs>) -> Seq<u8>
    decreases blocks.len(),
{
    if blocks.len() == 0 {
        Seq::empty()
    } else {
        data_bytes(blocks.drop_last()) + checksum::with_crc(block_payload(blocks.last()))
    }
}

/// Where a data block is, and its first key.
#[verifier::ext_equal]
pub struct IndexView {
    pub first_key: Seq<u8>,
    pub offset: u64,
    pub length: u32,
}

/// The bytes of an index entry.
pub open spec fn index_entry_bytes(e: IndexView) -> Seq<u8> {
    codec::le32(e.first_key.len() as u32) + e.first_key + codec::le64(e.offset) + codec::le32(
        e.length,
    )
}

/// The bytes of the index entries `es`.
pub open spec fn index_payload(es: Seq<IndexView>) -> Seq<u8>
    decreases es.len(),
{
    if es.len() == 0 {
        Seq::empty()
    } else {
        index_payload(es.drop_last()) + index_entry_bytes(es.last())
    }
}

/// The index of the data blocks `blocks`.
pub open spec fn index_of(blocks: Seq<Pairs>) -> Seq<IndexView>
    decreases blocks.len(),
{
    if blocks.len() == 0 {
        Seq::empty()
    } else {
        index_of(blocks.drop_last()).push(
            IndexView {
                first_key: blocks.last()[0].0,
                offset: data_bytes(blocks.drop_last()).len() as u64,
                length: (block_payload(blocks.last()).len() + 4) as u32,
            },
        )
    }
}

/// The footer.
pub open spec fn footer(index_off: u64, index_len: u64, bloom_off: u64, bloom_len: u64) -> Seq<u8> {
    codec::le64(index_off) + codec::le64(index_len) + codec::le64(bloom_off) + codec::le64(
        bloom_len,
    ) + magic()
}

/// The bytes of the filter block.
pub open spec fn bloom_bytes(f: Option<BloomFilter>) -> Seq<u8> {
    match f {
        Some(f) => f.spec_encode(),
        None => Seq::empty(),
    }
}

/// The bytes of the index block.
pub open spec fn index_bytes(s: Pairs) -> Seq<u8> {
    checksum::with_crc(index_payload(index_of(blocks_of(s))))
}

/// The bytes of a table without its footer.
pub open spec fn table_body(s: Pairs, f: Option<BloomFilter>) -> Seq<u8> {
    data_bytes(blocks_of(s)) + bloom_bytes(f) + index_bytes(s)
}

/// The bytes of a table with the entries `s` and the filter `f`.
pub open spec fn table_bytes(s: Pairs, f: Option<BloomFilter>) -> Seq<u8> {
    let data = data_bytes(blocks_of(s)).len();
    let filter = bloom_bytes(f).len();
    table_body(s, f) + footer(
        (data + filter) as u64,
        index_bytes(s).len() as u64,
        if f is Some {
            data as u64
        } else {
            0
        },
        filter as u64,
    )
}

/// `f` is the filter for the keys of `s`: the bits of these keys are set and
/// no others.
pub open spec fn filter_covers(f: BloomFilter, s: Pairs) -> bool {
    &&& f.wf()
    &&& f.spec_m() > 0
    &&& forall|j: int|
        0 <= j < f.spec_m() ==> (#[trigger] bloom::bit_at(f.spec_bits(), j) <==> exists|i: int|
            0 <= i < s.len() && bloom::touches(
                (#[trigger] s[i]).0,
                f.spec_k(),
                f.spec_m(),
                j,
            ))
}

/// The filter of a table, if it has one, is that for its keys.
pub open spec fn filter_fits(f: Option<BloomFilter>, s: Pairs) -> bool {
    f matches Some(f) ==> filter_covers(f, s)
}

/// A filter that covers `s` contains every key of `s`.
pub proof fn lemma_filter_contains(f: BloomFilter, s: Pairs, k: Seq<u8>)
    requires
        filter_covers(f, s),
        assoc::has_key(s, k),
    ensures
        f.may_contain(k),
{
    let w = choose|w: int| 0 <= w < s.len() && (#[trigger] s[w]).0 == k;
    assert forall|i: u8| i < f.spec_k() implies bloom::bit_at(
        f.spec_bits(),
        #[trigger] bloom::position(k, i, f.spec_m()) as int,
    ) by {
        let p = bloom::position(k, i, f.spec_m()) as int;
        assert(bloom::touches(s[w].0, f.spec_k(), f.spec_m(), p));
        assert(0 <= p < f.spec_m());
    }
}

/// An entry as it lies in a block.
#[verifier::ext_equal]
pub struct RawEntry {
    pub key: Seq<u8>,
    pub kind: u8,
    pub value: Seq<u8>,
}

impl RawEntry {
    /// Number of bytes that it takes.
    pub open spec fn size(self) -> int {
        9int + self.key.len() + self.value.len()
    }
}

/// The entry at the start of `p`; none if `p` ends before it does.
pub open spec fn parse_raw(p: Seq<u8>) -> Option<RawEntry> {
    if p.len() < 9 {
        None
    } else {
        let kl = codec::u32_at(p, 0) as int;
        let vl = codec::u32_at(p, 4) as int;
        if 9 + kl + vl > p.len() {
            None
        } else {
            Some(
                RawEntry {
                    key: p.subrange(9, 9 + kl),
                    kind: p[8],
                    value: p.subrange(9 + kl, 9 + kl + vl),
                },
            )
        }
    }
}

/// Outcome of a lookup in a block.
#[verifier::ext_equal]
pub enum Scan {
    /// The key is there with this entry.
    Hit(EntryView),
    /// The key is not there.
    Missing,
    /// The block is damaged.
    Damaged,
    /// The file ends before the block does.
    Lost,
}

/// Looks for `key` in the block payload `p`. Since keys ascend, the search
/// ends at the first larger key.
pub open spec fn scan(p: Seq<u8>, key: Seq<u8>) -> Scan
    decreases p.len(),
{
    if p.len() == 0 {
        Scan::Missing
    } else {
        match parse_raw(p) {
            None => Scan::Damaged,
            Some(raw) => if order::key_less(key, raw.key) {
                Scan::Missing
            } else if raw.key == key {
                match entry_of(raw.kind, raw.value) {
                    Some(e) => Scan::Hit(e),
                    None => Scan::Damaged,
                }
            } else if raw.size() <= p.len() {
                scan(p.skip(raw.size()), key)
            } else {
                Scan::Damaged
            },
        }
    }
}

/// The entries of a block payload up to the first damaged one.
pub open spec fn entries_in(p: Seq<u8>) -> Pairs
    decreases p.len(),
{
    match parse_raw(p) {
        None => Seq::empty(),
        Some(raw) => match entry_of(raw.kind, raw.value) {
            None => Seq::empty(),
            Some(e) => if raw.size() <= p.len() {
                seq![(raw.key, e)] + entries_in(p.skip(raw.size()))
            } else {
                Seq::empty()
            },
        },
    }
}

/// No entry of the block payload `p` is damaged.
pub open spec fn block_sound(p: Seq<u8>) -> bool
    decreases p.len(),
{
    p.len() == 0 || match parse_raw(p) {
        None => false,
        Some(raw) => entry_of(raw.kind, raw.value) is Some && raw.size() <= p.len() && block_sound(
            p.skip(raw.size()),
        ),
    }
}

/// The index entries in `p`; none if `p` is no sequence of index entries.
pub open spec fn parse_index(p: Seq<u8>) -> Option<Seq<IndexView>>
    decreases p.len(),
{
    if p.len() == 0 {
        Some(Seq::empty())
    } else if p.len() < 4 {
        None
    } else {
        let kl = codec::u32_at(p, 0) as int;
        if 16 + kl > p.len() {
            None
        } else {
            match parse_index(p.skip(16 + kl)) {
                None => None,
                Some(rest) => Some(
                    seq![
                        IndexView {
                            first_key: p.subrange(4, 4 + kl),
                            offset: codec::u64_at(p, 4 + kl),
                            length: codec::u32_at(p, 12 + kl),
                        },
                    ] + rest,
                ),
            }
        }
    }
}

/// The file ends before the block that `e` points to does.
pub open spec fn is_lost(b: Seq<u8>, e: IndexView) -> bool {
    e.offset + e.length > b.len()
}

/// The payload of the block that `e` points to; none if the file ends before
/// the block or its checksum does not hold.
pub open spec fn block_at(b: Seq<u8>, e: IndexView) -> Option<Seq<u8>> {
    if is_lost(b, e) {
        None
    } else {
        let block = b.subrange(e.offset as int, e.offset + e.length);
        if checksum::crc_holds(block) {
            Some(block.take(block.len() - 4))
        } else {
            None
        }
    }
}

/// `p` parts the index: the blocks before it start at or before `key`, those
/// from it on after `key`, at least next to it.
pub open spec fn is_boundary(index: Seq<IndexView>, key: Seq<u8>, p: int) -> bool {
    &&& 0 <= p <= index.len()
    &&& p > 0 ==> order::key_less_eq(index[p - 1].first_key, key)
    &&& p < index.len() ==> order::key_less(key, index[p].first_key)
}

/// What an opened table holds in memory.
#[verifier::ext_equal]
pub struct TableView {
    pub index: Seq<IndexView>,
    pub filter: Option<BloomFilter>,
}

/// The four numbers of the footer of `b`.
pub open spec fn footer_number(b: Seq<u8>, i: int) -> u64 {
    codec::u64_at(b, b.len() - FOOTER_LEN + 8 * i)
}

/// The footer of `b` is a footer, and what it points to lies within `b`.
pub open spec fn footer_sound(b: Seq<u8>) -> bool {
    let index_off = footer_number(b, 0);
    let index_len = footer_number(b, 1);
    let bloom_off = footer_number(b, 2);
    let bloom_len = footer_number(b, 3);
    &&& b.len() >= FOOTER_LEN
    &&& b.skip(b.len() - 8) == magic()
    &&& index_off + index_len + FOOTER_LEN <= b.len()
    &&& bloom_len > 0 ==> bloom_off + bloom_len + index_len + FOOTER_LEN <= b.len()
}

/// The index block of `b`.
pub open spec fn index_block(b: Seq<u8>) -> Seq<u8> {
    b.subrange(footer_number(b, 0) as int, footer_number(b, 0) + footer_number(b, 1))
}

/// The filter block of `b`.
pub open spec fn bloom_block(b: Seq<u8>) -> Seq<u8> {
    b.subrange(footer_number(b, 2) as int, footer_number(b, 2) + footer_number(b, 3))
}

/// The index of `b`, if the index block is sound.
pub open spec fn table_index(b: Seq<u8>) -> Option<Seq<IndexView>> {
    if checksum::crc_holds(index_block(b)) {
        parse_index(index_block(b).take(index_block(b).len() - 4))
    } else {
        None
    }
}

/// `b` can be opened as a table.
pub open spec fn is_table(b: Seq<u8>) -> bool {
    &&& footer_sound(b)
    &&& table_index(b) is Some
    &&& footer_number(b, 3) > 0 ==> bloom::is_filter(bloom_block(b))
}

/// `t` is what opening `b` loads.
pub open spec fn opens_as(b: Seq<u8>, t: TableView) -> bool {
    &&& is_table(b)
    &&& Some(t.index) == table_index(b)
    &&& if footer_number(b, 3) > 0 {
        t.filter matches Some(f) && f.wf() && f.spec_encode() == bloom_block(b)
    } else {
        t.filter is None
    }
}

/// The outcome of a lookup of `key` in the table `b`, opened as `t`, where
/// `p` parts the index.
pub open spec fn lookup(b: Seq<u8>, t: TableView, key: Seq<u8>, p: int) -> Scan {
    if t.filter is Some && t.filter->0.spec_m() > 0 && !t.filter->0.may_contain(key) {
        Scan::Missing
    } else if p == 0 {
        Scan::Missing
    } else {
        match block_at(b, t.index[p - 1]) {
            None => if is_lost(b, t.index[p - 1]) {
                Scan::Lost
            } else {
                Scan::Damaged
            },
            Some(payload) => scan(payload, key),
        }
    }
}

/// The entries of the blocks of `index` from block `i` on, up to the first
/// damage.
pub open spec fn entries_from(b: Seq<u8>, index: Seq<IndexView>, i: int) -> Pairs
    decreases index.len() - i,
{
    if i < 0 || i >= index.len() {
        Seq::empty()
    } else {
        match block_at(b, index[i]) {
            None => Seq::empty(),
            Some(p) => if block_sound(p) {
                entries_in(p) + entries_from(b, index, i + 1)
            } else {
                entries_in(p)
            },
        }
    }
}

/// What comes first from block `i` of `index` on, but for empty blocks, is a
/// block that cannot be read.
pub open spec fn bad_block_from(b: Seq<u8>, index: Seq<IndexView>, i: int) -> bool
    decreases index.len() - i,
{
    if i < 0 || i >= index.len() {
        false
    } else {
        match block_at(b, index[i]) {
            None => true,
            Some(p) => p.len() == 0 && bad_block_from(b, index, i + 1),
        }
    }
}

/// What comes first from block `i` of `index` on, but for empty blocks, is a
/// block that the file ends before.
pub open spec fn lost_block_from(b: Seq<u8>, index: Seq<IndexView>, i: int) -> bool
    decreases index.len() - i,
{
    if i < 0 || i >= index.len() {
        false
    } else {
        match block_at(b, index[i]) {
            None => is_lost(b, index[i]),
            Some(p) => p.len() == 0 && lost_block_from(b, index, i + 1),
        }
    }
}

/// A block that the file ends before is one of those of `index`.
pub proof fn lemma_lost_block(b: Seq<u8>, index: Seq<IndexView>, i: int)
    requires
        lost_block_from(b, index, i),
    ensures
        exists|j: int| 0 <= j < index.len() && is_lost(b, #[trigger] index[j]),
    decreases index.len() - i,
{
    if block_at(b, index[i]) is Some {
        lemma_lost_block(b, index, i + 1);
    } else {
        assert(is_lost(b, index[i]));
    }
}

/// The blocks of `index` from block `i` on are sound.
pub open spec fn sound_from(b: Seq<u8>, index: Seq<IndexView>, i: int) -> bool {
    forall|j: int|
        i <= j < index.len() ==> (block_at(b, #[trigger] index[j]) matches Some(p) && block_sound(
            p,
        ))
}

} // verus!
