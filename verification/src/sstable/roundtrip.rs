//! What was written into a table is what is read from it.

use crate::assoc;
use crate::checksum;
use crate::codec;
use crate::memtable::EntryView;
use crate::order;
use crate::sstable::bloom;
use crate::sstable::bloom::BloomFilter;
use crate::sstable::layout;
use crate::sstable::layout::{IndexView, Pairs, RawEntry, Scan, TableView};
use vstd::prelude::*;

verus! {

/// An entry reads back as it was written, whatever follows.
pub proof fn lemma_entry_read_back(k: Seq<u8>, e: EntryView, rest: Seq<u8>)
    requires
        layout::entry_fits(k, e),
    ensures
        layout::entry_bytes(k, e).len() == layout::entry_size(k, e),
        layout::parse_raw(layout::entry_bytes(k, e) + rest) == Some(
            RawEntry { key: k, kind: layout::entry_kind(e), value: e.payload() },
        ),
        layout::entry_of(layout::entry_kind(e), e.payload()) == Some(e),
        (layout::entry_bytes(k, e) + rest).skip(layout::entry_size(k, e)) == rest,
{
    let b = layout::entry_bytes(k, e) + rest;
    let kl = k.len() as u32;
    let vl = e.payload().len() as u32;
    codec::lemma_le32(kl);
    codec::lemma_le32(vl);
    assert(b.subrange(0, 4) =~= codec::le32(kl));
    assert(b.subrange(4, 8) =~= codec::le32(vl));
    assert(b.subrange(9, 9 + kl as int) =~= k);
    assert(b.subrange(9 + kl as int, 9 + kl as int + vl as int) =~= e.payload());
    assert(b.skip(layout::entry_size(k, e)) =~= rest);
}

/// The first entry goes in front.
proof fn lemma_payload_first(s: Pairs)
    requires
        s.len() > 0,
    ensures
        layout::block_payload(s) == layout::entry_bytes(s[0].0, s[0].1) + layout::block_payload(
            s.skip(1),
        ),
    decreases s.len(),
{
    if s.len() == 1 {
        reveal_with_fuel(layout::block_payload, 2);
        assert(s.drop_last() =~= Seq::empty());
        assert(s.skip(1) =~= Seq::empty());
        assert(layout::block_payload(s) =~= layout::entry_bytes(s[0].0, s[0].1));
    } else {
        lemma_payload_first(s.drop_last());
        assert(s.drop_last().skip(1) =~= s.skip(1).drop_last());
        assert(layout::block_payload(s) =~= layout::entry_bytes(s[0].0, s[0].1)
            + layout::block_payload(s.skip(1)));
    }
}

/// The entries of a block come back in order.
pub proof fn lemma_block_read_back(s: Pairs)
    requires
        layout::all_fit(s),
    ensures
        layout::entries_in(layout::block_payload(s)) == s,
        layout::block_sound(layout::block_payload(s)),
    decreases s.len(),
{
    let p = layout::block_payload(s);
    if s.len() == 0 {
        assert(layout::entries_in(p) =~= s);
    } else {
        let rest = layout::block_payload(s.skip(1));
        lemma_payload_first(s);
        lemma_entry_read_back(s[0].0, s[0].1, rest);
        assert(layout::all_fit(s.skip(1)));
        lemma_block_read_back(s.skip(1));
        assert(s =~= seq![(s[0].0, s[0].1)] + s.skip(1));
    }
}

/// A search in a block finds what was written for the key.
pub proof fn lemma_block_search(s: Pairs, key: Seq<u8>)
    requires
        layout::all_fit(s),
        assoc::sorted_pairs(s),
    ensures
        layout::scan(layout::block_payload(s), key) == (match assoc::find(s, key) {
            Some(e) => Scan::Hit(e),
            None => Scan::Missing,
        }),
    decreases s.len(),
{
    if s.len() > 0 {
        let tail = s.skip(1);
        let rest = layout::block_payload(tail);
        lemma_payload_first(s);
        lemma_entry_read_back(s[0].0, s[0].1, rest);
        assert(layout::all_fit(tail));
        assert(assoc::sorted_pairs(tail)) by {
            assert forall|i: int, j: int| 0 <= i < j < tail.len() implies order::key_less(
                #[trigger] tail[i].0,
                #[trigger] tail[j].0,
            ) by {
                assert(order::key_less(s[i + 1].0, s[j + 1].0));
            }
        }
        lemma_block_search(tail, key);
        order::lemma_key_irreflexive(key);
        if order::key_less(key, s[0].0) {
            assert forall|j: int| 0 <= j < s.len() implies order::key_less(
                key,
                (#[trigger] s[j]).0,
            ) by {
                if j > 0 {
                    assert(order::key_less(s[0].0, s[j].0));
                    order::lemma_key_transitive(key, s[0].0, s[j].0);
                }
            }
            assoc::lemma_absent_at(s, 0, key);
        } else if s[0].0 == key {
            assoc::lemma_find_at(s, 0);
        } else {
            if assoc::has_key(tail, key) {
                let i = choose|i: int| 0 <= i < tail.len() && (#[trigger] tail[i]).0 == key;
                assoc::lemma_find_at(tail, i);
                assoc::lemma_find_at(s, i + 1);
            } else if assoc::has_key(s, key) {
                let i = choose|i: int| 0 <= i < s.len() && (#[trigger] s[i]).0 == key;
                assert(tail[i - 1].0 == key);
            }
        }
    }
}

/// All index entries can be written down.
pub open spec fn index_fits(es: Seq<IndexView>) -> bool {
    forall|i: int| 0 <= i < es.len() ==> (#[trigger] es[i]).first_key.len() <= u32::MAX
}

proof fn lemma_index_first(es: Seq<IndexView>)
    requires
        es.len() > 0,
    ensures
        layout::index_payload(es) == layout::index_entry_bytes(es[0]) + layout::index_payload(
            es.skip(1),
        ),
    decreases es.len(),
{
    if es.len() == 1 {
        reveal_with_fuel(layout::index_payload, 2);
        assert(es.drop_last() =~= Seq::empty());
        assert(es.skip(1) =~= Seq::empty());
        assert(layout::index_payload(es) =~= layout::index_entry_bytes(es[0]));
    } else {
        lemma_index_first(es.drop_last());
        assert(es.drop_last().skip(1) =~= es.skip(1).drop_last());
        assert(layout::index_payload(es) =~= layout::index_entry_bytes(es[0])
            + layout::index_payload(es.skip(1)));
    }
}

/// The index entries come back in order.
pub proof fn lemma_index_read_back(es: Seq<IndexView>)
    requires
        index_fits(es),
    ensures
        layout::parse_index(layout::index_payload(es)) == Some(es),
    decreases es.len(),
{
    if es.len() > 0 {
        let e = es[0];
        let p = layout::index_payload(es);
        let kl = e.first_key.len() as u32;
        lemma_index_first(es);
        codec::lemma_le32(kl);
        codec::lemma_le64(e.offset);
        codec::lemma_le32(e.length);
        assert(index_fits(es.skip(1)));
        lemma_index_read_back(es.skip(1));
        assert(p.subrange(0, 4) =~= codec::le32(kl));
        assert(p.subrange(4, 4 + kl as int) =~= e.first_key);
        assert(p.subrange(4 + kl as int, 12 + kl as int) =~= codec::le64(e.offset));
        assert(p.subrange(12 + kl as int, 16 + kl as int) =~= codec::le32(e.length));
        assert(p.skip(16 + kl as int) =~= layout::index_payload(es.skip(1)));
        assert(es =~= seq![e] + es.skip(1));
    } else {
        assert(es =~= Seq::empty());
    }
}

/// The entries of all blocks, one block after the other.
pub open spec fn flatten(blocks: Seq<Pairs>) -> Pairs
    decreases blocks.len(),
{
    if blocks.len() == 0 {
        Seq::empty()
    } else {
        flatten(blocks.drop_last()) + blocks.last()
    }
}

/// Blocks hold all entries in order, none is empty, and each is short enough
/// for its length to be written down.
pub proof fn lemma_blocks(s: Pairs)
    requires
        layout::all_fit(s),
    ensures
        flatten(layout::blocks_of(s)) == s,
        forall|i: int|
            0 <= i < layout::blocks_of(s).len() ==> {
                &&& (#[trigger] layout::blocks_of(s)[i]).len() > 0
                &&& layout::all_fit(layout::blocks_of(s)[i])
                &&& layout::block_payload(layout::blocks_of(s)[i]).len() + 4 <= u32::MAX
            },
        s.len() > 0 ==> layout::blocks_of(s).len() > 0,
    decreases s.len(),
{
    let blocks = layout::blocks_of(s);
    if s.len() > 0 {
        let init = s.drop_last();
        let before = layout::blocks_of(init);
        let p = s.last();
        assert(layout::all_fit(init));
        lemma_blocks(init);
        lemma_entry_read_back(p.0, p.1, Seq::empty());
        if before.len() > 0 && layout::block_payload(before.last()).len() + layout::entry_size(
            p.0,
            p.1,
        ) <= layout::DATA_BLOCK_TARGET_SIZE {
            let grown = before.last().push(p);
            assert(grown.drop_last() =~= before.last());
            assert(blocks.drop_last() =~= before.drop_last());
            assert(blocks.last() == grown);
            assert(flatten(blocks) == flatten(before.drop_last()) + grown);
            assert(flatten(before) == flatten(before.drop_last()) + before.last());
            assert(s =~= init.push(p));
            assert(flatten(blocks) =~= s);
            assert forall|i: int| 0 <= i < blocks.len() implies {
                &&& (#[trigger] blocks[i]).len() > 0
                &&& layout::all_fit(blocks[i])
                &&& layout::block_payload(blocks[i]).len() + 4 <= u32::MAX
            } by {
                if i < blocks.len() - 1 {
                    assert(blocks[i] == before[i]);
                } else {
                    assert(blocks[i] == grown);
                    assert(layout::all_fit(before[before.len() - 1]));
                }
            }
        } else {
            let single = seq![p];
            assert(single.drop_last() =~= Seq::empty());
            assert(blocks.drop_last() =~= before);
            assert(flatten(blocks) =~= s);
            assert(layout::block_payload(single) =~= layout::entry_bytes(p.0, p.1)) by {
                reveal_with_fuel(layout::block_payload, 2);
            }
            assert forall|i: int| 0 <= i < blocks.len() implies {
                &&& (#[trigger] blocks[i]).len() > 0
                &&& layout::all_fit(blocks[i])
                &&& layout::block_payload(blocks[i]).len() + 4 <= u32::MAX
            } by {
                if i < blocks.len() - 1 {
                    assert(blocks[i] == before[i]);
                } else {
                    assert(blocks[i] == single);
                }
            }
        }
    }
}

/// Well-formed blocks, as `lemma_blocks` gives them.
pub open spec fn blocks_ok(blocks: Seq<Pairs>) -> bool {
    forall|i: int|
        0 <= i < blocks.len() ==> {
            &&& (#[trigger] blocks[i]).len() > 0
            &&& layout::all_fit(blocks[i])
            &&& layout::block_payload(blocks[i]).len() + 4 <= u32::MAX
        }
}

/// The data blocks before `i` are a prefix of all of them.
proof fn lemma_data_prefix(blocks: Seq<Pairs>, i: int)
    requires
        0 <= i <= blocks.len(),
    ensures
        layout::data_bytes(blocks.take(i)).is_prefix_of(layout::data_bytes(blocks)),
    decreases blocks.len(),
{
    if i == blocks.len() {
        assert(blocks.take(i) =~= blocks);
        let d = layout::data_bytes(blocks);
        assert(d =~= d.subrange(0, d.len() as int));
    } else {
        let init = blocks.drop_last();
        lemma_data_prefix(init, i);
        assert(init.take(i) =~= blocks.take(i));
        let a = layout::data_bytes(blocks.take(i));
        let d = layout::data_bytes(blocks);
        assert(a =~= layout::data_bytes(init).subrange(0, a.len() as int));
        assert(a =~= d.subrange(0, a.len() as int));
    }
}

/// The index entry of block `i`.
proof fn lemma_index_at(blocks: Seq<Pairs>, i: int)
    requires
        0 <= i < blocks.len(),
    ensures
        layout::index_of(blocks).len() == blocks.len(),
        layout::index_of(blocks)[i] == (IndexView {
            first_key: blocks[i][0].0,
            offset: layout::data_bytes(blocks.take(i)).len() as u64,
            length: (layout::block_payload(blocks[i]).len() + 4) as u32,
        }),
    decreases blocks.len(),
{
    let init = blocks.drop_last();
    if init.len() > 0 {
        lemma_index_at(init, 0);
    } else {
        assert(layout::index_of(init) =~= Seq::empty());
    }
    if i < init.len() {
        lemma_index_at(init, i);
        assert(init.take(i) =~= blocks.take(i));
    } else {
        assert(blocks.take(i) =~= init);
    }
}

proof fn lemma_index_len(blocks: Seq<Pairs>)
    ensures
        layout::index_of(blocks).len() == blocks.len(),
    decreases blocks.len(),
{
    if blocks.len() > 0 {
        lemma_index_len(blocks.drop_last());
    }
}

/// Each index entry leads to its block.
pub proof fn lemma_block_found(blocks: Seq<Pairs>, rest: Seq<u8>, i: int)
    requires
        blocks_ok(blocks),
        0 <= i < blocks.len(),
        layout::data_bytes(blocks).len() <= u64::MAX,
    ensures
        layout::index_of(blocks).len() == blocks.len(),
        layout::index_of(blocks)[i].first_key == blocks[i][0].0,
        layout::block_at(layout::data_bytes(blocks) + rest, layout::index_of(blocks)[i]) == Some(
            layout::block_payload(blocks[i]),
        ),
{
    let d = layout::data_bytes(blocks);
    let b = d + rest;
    let a = layout::data_bytes(blocks.take(i));
    let p = layout::block_payload(blocks[i]);
    lemma_index_at(blocks, i);
    lemma_data_prefix(blocks, i);
    lemma_data_prefix(blocks, i + 1);
    checksum::lemma_with_crc(p);
    let next = layout::data_bytes(blocks.take(i + 1));
    assert(blocks.take(i + 1).drop_last() =~= blocks.take(i));
    assert(next == a + checksum::with_crc(p));
    assert(next =~= d.subrange(0, next.len() as int));
    let off = a.len() as int;
    let block = b.subrange(off, off + p.len() + 4);
    assert(block =~= checksum::with_crc(p)) by {
        assert forall|j: int| 0 <= j < block.len() implies block[j] == checksum::with_crc(p)[j] by {
            assert(block[j] == d[off + j]);
            assert(d[off + j] == next[off + j]);
        }
    }
    assert(block.take(block.len() - 4) =~= p);
}

/// The entry at `j` of block `i`, at its place among all entries.
proof fn lemma_flatten_at(blocks: Seq<Pairs>, i: int, j: int)
    requires
        0 <= i < blocks.len(),
        0 <= j < blocks[i].len(),
    ensures
        flatten(blocks.take(i)).len() + j < flatten(blocks).len(),
        flatten(blocks)[flatten(blocks.take(i)).len() + j] == blocks[i][j],
    decreases blocks.len(),
{
    let init = blocks.drop_last();
    if i < init.len() {
        lemma_flatten_at(init, i, j);
        assert(init.take(i) =~= blocks.take(i));
    } else {
        assert(blocks.take(i) =~= init);
    }
}

proof fn lemma_flatten_monotone(blocks: Seq<Pairs>, i: int, k: int)
    requires
        0 <= i <= k <= blocks.len(),
    ensures
        flatten(blocks.take(i)).len() <= flatten(blocks.take(k)).len(),
        i < k ==> flatten(blocks.take(i)).len() + blocks[i].len() <= flatten(blocks.take(k)).len(),
    decreases k,
{
    if i < k {
        lemma_flatten_monotone(blocks, i, k - 1);
        assert(blocks.take(k).drop_last() =~= blocks.take(k - 1));
        assert(blocks.take(k).last() == blocks[k - 1]);
    }
}

/// Every entry is in some block.
proof fn lemma_in_some_block(blocks: Seq<Pairs>, n: int)
    requires
        0 <= n < flatten(blocks).len(),
    ensures
        exists|i: int, j: int|
            0 <= i < blocks.len() && 0 <= j < blocks[i].len() && #[trigger] blocks[i][j] == flatten(
                blocks,
            )[n],
    decreases blocks.len(),
{
    let init = blocks.drop_last();
    if n < flatten(init).len() {
        lemma_in_some_block(init, n);
        let (i, j) = choose|i: int, j: int|
            0 <= i < init.len() && 0 <= j < init[i].len() && #[trigger] init[i][j] == flatten(
                init,
            )[n];
        assert(blocks[i][j] == flatten(blocks)[n]);
    } else {
        let i = blocks.len() - 1;
        let j = n - flatten(init).len();
        assert(blocks[i][j] == flatten(blocks)[n]);
    }
}

/// A block of sorted entries is sorted, and blocks ascend.
proof fn lemma_block_order(blocks: Seq<Pairs>, i: int, k: int)
    requires
        blocks_ok(blocks),
        assoc::sorted_pairs(flatten(blocks)),
        0 <= i < blocks.len(),
        0 <= k < blocks.len(),
    ensures
        assoc::sorted_pairs(blocks[i]),
        i < k ==> forall|j: int, l: int|
            0 <= j < blocks[i].len() && 0 <= l < blocks[k].len() ==> order::key_less(
                (#[trigger] blocks[i][j]).0,
                (#[trigger] blocks[k][l]).0,
            ),
{
    let all = flatten(blocks);
    assert forall|j: int, l: int| 0 <= j < l < blocks[i].len() implies order::key_less(
        #[trigger] blocks[i][j].0,
        #[trigger] blocks[i][l].0,
    ) by {
        lemma_flatten_at(blocks, i, j);
        lemma_flatten_at(blocks, i, l);
        let a = flatten(blocks.take(i)).len() + j;
        let c = flatten(blocks.take(i)).len() + l;
        assert(order::key_less(all[a].0, all[c].0));
    }
    if i < k {
        assert forall|j: int, l: int|
            0 <= j < blocks[i].len() && 0 <= l < blocks[k].len() implies order::key_less(
            (#[trigger] blocks[i][j]).0,
            (#[trigger] blocks[k][l]).0,
        ) by {
            lemma_flatten_at(blocks, i, j);
            lemma_flatten_at(blocks, k, l);
            lemma_flatten_monotone(blocks, i, k);
            let a = flatten(blocks.take(i)).len() + j;
            let c = flatten(blocks.take(k)).len() + l;
            assert(order::key_less(all[a].0, all[c].0));
        }
    }
}

/// The block that a boundary points to is the only one that can hold the key.
proof fn lemma_candidate_block(blocks: Seq<Pairs>, key: Seq<u8>, p: int)
    requires
        blocks_ok(blocks),
        assoc::sorted_pairs(flatten(blocks)),
        layout::is_boundary(layout::index_of(blocks), key, p),
    ensures
        p == 0 ==> assoc::find(flatten(blocks), key) is None,
        p > 0 ==> p <= blocks.len() && assoc::sorted_pairs(blocks[p - 1]) && assoc::find(
            flatten(blocks),
            key,
        ) == assoc::find(blocks[p - 1], key),
{
    let all = flatten(blocks);
    let index = layout::index_of(blocks);
    lemma_index_len(blocks);
    if p > 0 {
        lemma_index_at(blocks, p - 1);
        lemma_block_order(blocks, p - 1, p - 1);
    }
    if p < blocks.len() {
        lemma_index_at(blocks, p);
    }
    if assoc::has_key(all, key) {
        let n = choose|n: int| 0 <= n < all.len() && (#[trigger] all[n]).0 == key;
        lemma_in_some_block(blocks, n);
        let (i, j) = choose|i: int, j: int|
            0 <= i < blocks.len() && 0 <= j < blocks[i].len() && #[trigger] blocks[i][j] == all[n];
        order::lemma_key_irreflexive(key);
        lemma_block_order(blocks, i, i);
        if i >= p {
            let first = blocks[p][0].0;
            if i > p {
                lemma_block_order(blocks, p, i);
                assert(order::key_less(blocks[p][0].0, blocks[i][j].0));
            } else if j > 0 {
                assert(order::key_less(blocks[i][0].0, blocks[i][j].0));
            }
            order::lemma_key_total(key, first);
            assert(false);
        }
        if i < p - 1 {
            let first = blocks[p - 1][0].0;
            lemma_block_order(blocks, i, p - 1);
            assert(order::key_less(blocks[i][j].0, blocks[p - 1][0].0));
            order::lemma_key_total(key, first);
            assert(false);
        }
        assert(blocks[p - 1][j].0 == key);
        assoc::lemma_find_at(blocks[p - 1], j);
        assoc::lemma_find_at(all, n);
    } else if p > 0 && assoc::has_key(blocks[p - 1], key) {
        let j = choose|j: int| 0 <= j < blocks[p - 1].len() && (#[trigger] blocks[p - 1][j]).0 == key;
        lemma_flatten_at(blocks, p - 1, j);
        let n = flatten(blocks.take(p - 1)).len() + j;
        assert(all[n].0 == key);
    }
}

/// A table with the entries `s` can be written: the entries ascend and fit,
/// the filter is that of the keys, and the file is not too long.
pub open spec fn writable(s: Pairs, f: Option<BloomFilter>) -> bool {
    &&& assoc::sorted_pairs(s)
    &&& layout::all_fit(s)
    &&& layout::filter_fits(f, s)
    &&& layout::table_bytes(s, f).len() <= u64::MAX
}

/// A written table opens, with the index and the filter that were written.
pub proof fn lemma_table_opens(s: Pairs, f: Option<BloomFilter>, t: TableView)
    requires
        writable(s, f),
    ensures
        layout::opens_as(
            layout::table_bytes(s, f),
            (TableView { index: layout::index_of(layout::blocks_of(s)), filter: f }),
        ),
        layout::opens_as(layout::table_bytes(s, f), t) ==> {
            &&& t.index == layout::index_of(layout::blocks_of(s))
            &&& t.filter is Some == f is Some
            &&& f is Some ==> t.filter->0.spec_k() == f->0.spec_k() && t.filter->0.spec_m()
                == f->0.spec_m() && t.filter->0.spec_bits() == f->0.spec_bits()
        },
{
    let b = layout::table_bytes(s, f);
    let blocks = layout::blocks_of(s);
    let data = layout::data_bytes(blocks);
    let filter = layout::bloom_bytes(f);
    let index = layout::index_bytes(s);
    let payload = layout::index_payload(layout::index_of(blocks));
    let n0 = (data.len() + filter.len()) as u64;
    let n1 = index.len() as u64;
    let n2: u64 = if f is Some {
        data.len() as u64
    } else {
        0
    };
    let n3 = filter.len() as u64;
    let body = layout::table_body(s, f);
    let foot = layout::footer(n0, n1, n2, n3);
    codec::lemma_le64(n0);
    codec::lemma_le64(n1);
    codec::lemma_le64(n2);
    codec::lemma_le64(n3);
    assert(foot.len() == 40);
    assert(b == body + foot);
    let z = b.len() - 40;
    assert(b.subrange(z, z + 8) =~= codec::le64(n0));
    assert(b.subrange(z + 8, z + 16) =~= codec::le64(n1));
    assert(b.subrange(z + 16, z + 24) =~= codec::le64(n2));
    assert(b.subrange(z + 24, z + 32) =~= codec::le64(n3));
    assert(b.skip(b.len() - 8) =~= layout::magic());
    checksum::lemma_with_crc(payload);
    assert(layout::index_block(b) =~= index);
    lemma_blocks(s);
    lemma_index_len(blocks);
    assert(index_fits(layout::index_of(blocks))) by {
        assert forall|i: int| 0 <= i < layout::index_of(blocks).len() implies (
        #[trigger] layout::index_of(blocks)[i]).first_key.len() <= u32::MAX by {
            lemma_index_at(blocks, i);
            assert(layout::all_fit(blocks[i]));
            assert(layout::entry_fits(blocks[i][0].0, blocks[i][0].1));
        }
    }
    lemma_index_read_back(layout::index_of(blocks));
    assert(index.take(index.len() - 4) =~= payload);
    if f is Some {
        bloom::lemma_filter_round_trip(f->0, f->0, Seq::empty());
        assert(layout::bloom_block(b) =~= filter);
        if layout::opens_as(b, t) {
            bloom::lemma_filter_round_trip(f->0, t.filter->0, Seq::empty());
        }
    }
}

/// A lookup in a written table finds exactly what was written for the key.
pub proof fn lemma_table_get(s: Pairs, f: Option<BloomFilter>, t: TableView, key: Seq<u8>, p: int)
    requires
        writable(s, f),
        layout::opens_as(layout::table_bytes(s, f), t),
        layout::is_boundary(t.index, key, p),
    ensures
        layout::lookup(layout::table_bytes(s, f), t, key, p) == (match assoc::find(s, key) {
            Some(e) => Scan::Hit(e),
            None => Scan::Missing,
        }),
{
    let b = layout::table_bytes(s, f);
    let blocks = layout::blocks_of(s);
    let data = layout::data_bytes(blocks);
    lemma_table_opens(s, f, t);
    lemma_blocks(s);
    assert(blocks_ok(blocks));
    lemma_candidate_block(blocks, key, p);
    lemma_index_len(blocks);
    let blocked = t.filter is Some && t.filter->0.spec_m() > 0 && !t.filter->0.may_contain(key);
    if blocked {
        bloom::lemma_filter_round_trip(f->0, t.filter->0, key);
        assert(t.filter->0.may_contain(key) == f->0.may_contain(key));
        if assoc::has_key(s, key) {
            layout::lemma_filter_contains(f->0, s, key);
        }
    } else if p > 0 {
        let rest = b.skip(data.len() as int);
        assert(b =~= data + rest);
        lemma_block_found(blocks, rest, p - 1);
        lemma_block_search(blocks[p - 1], key);
    }
}

/// A walk through a written table gives exactly the entries that were
/// written, in order.
pub proof fn lemma_table_walk(s: Pairs, f: Option<BloomFilter>, t: TableView)
    requires
        writable(s, f),
        layout::opens_as(layout::table_bytes(s, f), t),
    ensures
        layout::entries_from(layout::table_bytes(s, f), t.index, 0) == s,
        layout::sound_from(layout::table_bytes(s, f), t.index, 0),
{
    let b = layout::table_bytes(s, f);
    let blocks = layout::blocks_of(s);
    let data = layout::data_bytes(blocks);
    lemma_table_opens(s, f, t);
    lemma_blocks(s);
    assert(blocks_ok(blocks));
    lemma_index_len(blocks);
    let rest = b.skip(data.len() as int);
    assert(b =~= data + rest);
    assert forall|j: int| 0 <= j < t.index.len() implies (layout::block_at(
        b,
        #[trigger] t.index[j],
    ) matches Some(p) && layout::block_sound(p)) by {
        lemma_block_found(blocks, rest, j);
        lemma_block_read_back(blocks[j]);
    }
    lemma_walk_from(blocks, rest, 0);
    assert(blocks.skip(0) =~= blocks);
}

proof fn lemma_walk_from(blocks: Seq<Pairs>, rest: Seq<u8>, i: int)
    requires
        blocks_ok(blocks),
        0 <= i <= blocks.len(),
        layout::data_bytes(blocks).len() <= u64::MAX,
    ensures
        layout::entries_from(
            layout::data_bytes(blocks) + rest,
            layout::index_of(blocks),
            i,
        ) == flatten(blocks.skip(i)),
    decreases blocks.len() - i,
{
    lemma_index_len(blocks);
    if i < blocks.len() {
        lemma_walk_from(blocks, rest, i + 1);
        lemma_block_found(blocks, rest, i);
        lemma_block_read_back(blocks[i]);
        lemma_flatten_first(blocks.skip(i));
        assert(blocks.skip(i).skip(1) =~= blocks.skip(i + 1));
    } else {
        assert(blocks.skip(i) =~= Seq::empty());
    }
}

proof fn lemma_flatten_first(blocks: Seq<Pairs>)
    requires
        blocks.len() > 0,
    ensures
        flatten(blocks) == blocks[0] + flatten(blocks.skip(1)),
    decreases blocks.len(),
{
    if blocks.len() == 1 {
        reveal_with_fuel(flatten, 2);
        assert(blocks.drop_last() =~= Seq::empty());
        assert(blocks.skip(1) =~= Seq::empty());
        assert(flatten(blocks) =~= blocks[0] + flatten(blocks.skip(1)));
    } else {
        lemma_flatten_first(blocks.drop_last());
        assert(blocks.drop_last().skip(1) =~= blocks.skip(1).drop_last());
        assert(flatten(blocks) =~= blocks[0] + flatten(blocks.skip(1)));
    }
}

} // verus!
