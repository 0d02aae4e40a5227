//! What tables and filters promise of the entries that are written to them.

use crate::assoc;
use crate::checksum;
use crate::codec;
use crate::memtable;
use crate::memtable::EntryView;
use crate::sstable::bloom;
use crate::sstable::bloom::BloomFilter;
use crate::sstable::layout;
use crate::sstable::layout::{IndexView, Pairs, TableView};
use crate::sstable::reader;
use crate::sstable::reader::SsTableLookup;
use crate::sstable::roundtrip;
use vstd::prelude::*;

verus! {

/// A lookup in a table gives what was written for the key: the bytes of the
/// value, all of them; that it was deleted; or that it is not there.
pub proof fn lemma_get_reads_back(
    s: Pairs,
    f: Option<BloomFilter>,
    t: TableView,
    key: Seq<u8>,
    p: int,
    l: SsTableLookup,
)
    requires
        roundtrip::writable(s, f),
        layout::opens_as(layout::table_bytes(s, f), t),
        layout::is_boundary(t.index, key, p),
        reader::reports(l, layout::lookup(layout::table_bytes(s, f), t, key, p)),
    ensures
        forall|i: int|
            0 <= i < s.len() && (#[trigger] s[i]).0 == key ==> match s[i].1 {
                EntryView::Put(v) => l matches SsTableLookup::Found(x) && x@ == v,
                EntryView::Vector(v) => l matches SsTableLookup::Found(x) && x@ == v,
                EntryView::Tombstone => l is Deleted,
            },
        (forall|i: int| 0 <= i < s.len() ==> (#[trigger] s[i]).0 != key) ==> l is Missing,
{
    roundtrip::lemma_table_get(s, f, t, key, p);
    assert forall|i: int| 0 <= i < s.len() && (#[trigger] s[i]).0 == key implies assoc::find(
        s,
        key,
    ) == Some(s[i].1) by {
        assoc::lemma_find_at(s, i);
    }
}

/// How entries fall into blocks: all of them, in order, none of the blocks
/// empty. A block of several entries has at most 4096 bytes, and with the next
/// entry it would have more.
pub proof fn lemma_blocks_are_filled(s: Pairs)
    ensures
        ({
            let bs = layout::blocks_of(s);
            &&& s.len() > 0 <==> bs.len() > 0
            &&& bs.flatten() == s
            &&& forall|b: int|
                0 <= b < bs.len() ==> (#[trigger] bs[b]).len() > 0 && (bs[b].len() > 1
                    ==> layout::block_payload(bs[b]).len() <= 4096)
            &&& forall|b: int|
                0 <= b < bs.len() - 1 ==> layout::block_payload(#[trigger] bs[b]).len()
                    + layout::block_payload(seq![bs[b + 1][0]]).len() > 4096
        }),
    decreases s.len(),
{
    let bs = layout::blocks_of(s);
    if s.len() == 0 {
        reveal(Seq::flatten);
        assert(bs.flatten() =~= s);
    } else {
        let d = s.drop_last();
        let p = s.last();
        let before = layout::blocks_of(d);
        lemma_blocks_are_filled(d);
        lemma_payload_of_one(p);
        assert(s =~= d.push(p));
        if before.len() > 0 && layout::block_payload(before.last()).len() + layout::entry_size(
            p.0,
            p.1,
        ) <= 4096 {
            let last = before.last().push(p);
            let front = before.drop_last();
            assert(bs == front.push(last));
            assert(last.drop_last() =~= before.last());
            lemma_entry_length(p);
            assert(before =~= front.push(before.last()));
            front.lemma_flatten_push(before.last());
            front.lemma_flatten_push(last);
            assert(bs.flatten() =~= s);
            assert forall|b: int| 0 <= b < bs.len() - 1 implies layout::block_payload(
                #[trigger] bs[b],
            ).len() + layout::block_payload(seq![bs[b + 1][0]]).len() > 4096 by {
                assert(bs[b] == before[b]);
                assert(bs[b + 1][0] == before[b + 1][0]);
            }
            assert forall|b: int| 0 <= b < bs.len() implies (#[trigger] bs[b]).len() > 0 && (
            bs[b].len() > 1 ==> layout::block_payload(bs[b]).len() <= 4096) by {
                if b < front.len() {
                    assert(bs[b] == before[b]);
                }
            }
        } else {
            assert(bs == before.push(seq![p]));
            before.lemma_flatten_push(seq![p]);
            assert(bs.flatten() =~= s);
            assert forall|b: int| 0 <= b < bs.len() - 1 implies layout::block_payload(
                #[trigger] bs[b],
            ).len() + layout::block_payload(seq![bs[b + 1][0]]).len() > 4096 by {
                assert(bs[b] == before[b]);
                if b + 1 < before.len() {
                    assert(bs[b + 1] == before[b + 1]);
                }
            }
            assert forall|b: int| 0 <= b < bs.len() implies (#[trigger] bs[b]).len() > 0 && (
            bs[b].len() > 1 ==> layout::block_payload(bs[b]).len() <= 4096) by {
                if b < before.len() {
                    assert(bs[b] == before[b]);
                }
            }
        }
    }
}

proof fn lemma_entry_length(p: (Seq<u8>, EntryView))
    ensures
        layout::entry_bytes(p.0, p.1).len() == layout::entry_size(p.0, p.1),
{
    codec::lemma_le32(p.0.len() as u32);
    codec::lemma_le32(p.1.payload().len() as u32);
}

proof fn lemma_payload_of_one(p: (Seq<u8>, EntryView))
    ensures
        layout::block_payload(seq![p]).len() == layout::entry_size(p.0, p.1),
{
    lemma_entry_length(p);
    reveal_with_fuel(layout::block_payload, 2);
    assert(seq![p].drop_last() =~= Seq::empty());
    assert(seq![p].last() == p);
}

/// A table is not much longer than its keys and values: each entry costs 29
/// bytes more at most, and its key once more.
pub proof fn lemma_table_length(s: Pairs, f: Option<BloomFilter>)
    requires
        layout::all_fit(s),
    ensures
        layout::table_bytes(s, f).len() <= 44 + 29 * s.len() + 2 * memtable::footprint(s) + (
        match f {
            Some(f) => 13 + f.spec_bits().len(),
            None => 0,
        }),
{
    let blocks = layout::blocks_of(s);
    lemma_blocks_length(s);
    checksum::lemma_with_crc(layout::index_payload(layout::index_of(blocks)));
    broadcast use codec::lemma_le32, codec::lemma_le64;

    if f is Some {
        let body = bloom::filter_body(f->0.spec_k(), f->0.spec_m(), f->0.spec_bits());
        checksum::lemma_with_crc(body);
    }
}

proof fn lemma_blocks_length(s: Pairs)
    requires
        layout::all_fit(s),
    ensures
        layout::data_bytes(layout::blocks_of(s)).len() + layout::index_payload(
            layout::index_of(layout::blocks_of(s)),
        ).len() <= 29 * s.len() + 2 * memtable::footprint(s),
    decreases s.len(),
{
    if s.len() > 0 {
        let d = s.drop_last();
        let p = s.last();
        let before = layout::blocks_of(d);
        let blocks = layout::blocks_of(s);
        assert(layout::all_fit(d)) by {
            assert forall|i: int| 0 <= i < d.len() implies layout::entry_fits(
                (#[trigger] d[i]).0,
                d[i].1,
            ) by {
                assert(d[i] == s[i]);
            }
        }
        lemma_blocks_length(d);
        roundtrip::lemma_blocks(d);
        broadcast use codec::lemma_le32, codec::lemma_le64;

        roundtrip::lemma_entry_read_back(p.0, p.1, Seq::empty());
        if before.len() > 0 && layout::block_payload(before.last()).len() + layout::entry_size(
            p.0,
            p.1,
        ) <= layout::DATA_BLOCK_TARGET_SIZE {
            let last = before.last();
            let more = last.push(p);
            assert(blocks.drop_last() =~= before.drop_last());
            assert(blocks.last() == more);
            assert(more.drop_last() =~= last);
            assert(more[0] == last[0]) by {
                assert(before[before.len() - 1].len() > 0);
            }
            checksum::lemma_with_crc(layout::block_payload(last));
            checksum::lemma_with_crc(layout::block_payload(more));
            let a = layout::index_of(before);
            let b = layout::index_of(blocks);
            assert(a.drop_last() =~= b.drop_last());
            assert(a.last().first_key == b.last().first_key);
        } else {
            let one = seq![p];
            assert(blocks.drop_last() =~= before);
            assert(blocks.last() == one);
            assert(one.drop_last() =~= Seq::<(Seq<u8>, EntryView)>::empty());
            assert(layout::block_payload(one.drop_last()).len() == 0);
            checksum::lemma_with_crc(layout::block_payload(one));
            let b = layout::index_of(blocks);
            assert(b.drop_last() =~= layout::index_of(before));
        }
    }
}

/// A block is read only if the file holds all of it, and its last four bytes are
/// the checksum of all the others.
pub proof fn lemma_block_is_checked(b: Seq<u8>, e: IndexView)
    ensures
        layout::block_at(b, e) matches Some(p) ==> {
            &&& e.length >= 4
            &&& e.offset + e.length <= b.len()
            &&& p == b.subrange(e.offset as int, e.offset + e.length - 4)
            &&& codec::u32_at(b.subrange(e.offset as int, e.offset + e.length), e.length - 4)
                == checksum::crc32(p)
        },
        e.offset + e.length <= b.len() && e.length >= 4 && codec::u32_at(
            b.subrange(e.offset as int, e.offset + e.length),
            e.length - 4,
        ) == checksum::crc32(b.subrange(e.offset as int, e.offset + e.length - 4))
            ==> layout::block_at(b, e) is Some,
{
    if e.offset + e.length <= b.len() && e.length >= 4 {
        let block = b.subrange(e.offset as int, e.offset + e.length);
        assert(block.take(block.len() - 4) =~= b.subrange(
            e.offset as int,
            e.offset + e.length - 4,
        ));
    }
}

/// Damage is no answer: a lookup of a key that the filter does not exclude, in a
/// block that the file does not hold in full or whose checksum is wrong, neither
/// gives a value nor says that the key is missing or deleted.
pub proof fn lemma_damage_is_no_answer(
    b: Seq<u8>,
    t: TableView,
    key: Seq<u8>,
    p: int,
    l: SsTableLookup,
)
    requires
        layout::is_boundary(t.index, key, p),
        p > 0,
        t.filter matches Some(f) ==> f.spec_m() == 0 || f.may_contain(key),
        ({
            let e = t.index[p - 1];
            ||| e.offset + e.length > b.len()
            ||| e.length < 4
            ||| codec::u32_at(b.subrange(e.offset as int, e.offset + e.length), e.length - 4)
                != checksum::crc32(b.subrange(e.offset as int, e.offset + e.length - 4))
        }),
    ensures
        layout::lookup(b, t, key, p) is Lost <==> t.index[p - 1].offset + t.index[p - 1].length
            > b.len(),
        layout::lookup(b, t, key, p) is Damaged <==> t.index[p - 1].offset + t.index[p - 1].length
            <= b.len(),
        !reader::reports(l, layout::lookup(b, t, key, p)),
{
    lemma_block_is_checked(b, t.index[p - 1]);
}

/// A table is opened only if its index is whole: its last four bytes are the
/// checksum of all the others.
pub proof fn lemma_index_is_checked(b: Seq<u8>, t: TableView)
    requires
        layout::opens_as(b, t),
    ensures
        ({
            let block = layout::index_block(b);
            &&& block.len() >= 4
            &&& codec::u32_at(block, block.len() - 4) == checksum::crc32(
                block.take(block.len() - 4),
            )
        }),
        b.skip(b.len() - 8) == seq![83u8, 65u8, 83u8, 84u8, 83u8, 83u8, 84u8, 50u8],
{
    assert(layout::magic() =~= seq![83u8, 65u8, 83u8, 84u8, 83u8, 83u8, 84u8, 50u8]);
}

/// Where the bits of a key are in a filter of `m` bits: at the two halves of the
/// key's digest, the lower one and the upper one added as often as the number of
/// the hash function says.
pub proof fn lemma_positions(key: Seq<u8>, i: u8, m: u64)
    requires
        m > 0,
    ensures
        ({
            let digest = checksum::xxh3_128(key);
            let h1 = digest as u64;
            let h2 = (digest >> 64) as u64;
            &&& bloom::position(key, 0, m) == h1 % m
            &&& i < u8::MAX ==> exists|a: u64, b: u64|
                {
                    &&& #[trigger] (a % m) == bloom::position(key, i, m)
                    &&& #[trigger] (b % m) == bloom::position(key, (i + 1) as u8, m)
                    &&& b == a.wrapping_add(h2)
                }
        }),
{
    let digest = checksum::xxh3_128(key);
    let h1 = digest as u64;
    let h2 = (digest >> 64) as u64;
    assert(0u64.wrapping_mul(h2) == 0) by {
        assert((0 * h2 as int) == 0) by (nonlinear_arith);
    }
    if i < u8::MAX {
        let a = h1.wrapping_add((i as u64).wrapping_mul(h2));
        let b = h1.wrapping_add(((i + 1) as u64).wrapping_mul(h2));
        lemma_steps(h1, h2, i as u64);
        assert(a % m == bloom::position(key, i, m));
        assert(b % m == bloom::position(key, (i + 1) as u8, m));
    }
}

proof fn lemma_steps(h1: u64, h2: u64, i: u64)
    requires
        i < 255,
    ensures
        h1.wrapping_add(((i + 1) as u64).wrapping_mul(h2)) == h1.wrapping_add(
            i.wrapping_mul(h2),
        ).wrapping_add(h2),
{
    let q: int = 0x1_0000_0000_0000_0000;
    let x = i * h2;
    let y = (i + 1) * h2;
    assert(y == x + h2) by (nonlinear_arith)
        requires
            x == i * h2,
            y == (i + 1) * h2,
    ;
    assert(i.wrapping_mul(h2) == x % q);
    assert(((i + 1) as u64).wrapping_mul(h2) == y % q);
    vstd::arithmetic::div_mod::lemma_add_mod_noop(x, h2 as int, q);
    vstd::arithmetic::div_mod::lemma_small_mod(h2 as nat, q as nat);
}

/// A filter has as many bits as it is asked for, 64 at least, and as many hash
/// functions as come nearest to 0.69 for each bit of a key, from 1 to 30.
pub proof fn lemma_filter_size(keys: nat, bits_per_key: nat)
    ensures
        64 <= keys * bits_per_key <= usize::MAX ==> bloom::bit_count_for(
            keys as int,
            bits_per_key as int,
        ) == keys * bits_per_key,
        keys * bits_per_key < 64 ==> bloom::bit_count_for(keys as int, bits_per_key as int) == 64,
        ({
            let k = bloom::hash_count_for(bits_per_key as int);
            &&& 1 <= k <= 30
            &&& 1 < k < 30 ==> -50 <= 100 * k - 69 * bits_per_key <= 50
            &&& k == 1 ==> 69 * bits_per_key < 150
            &&& k == 30 ==> 69 * bits_per_key >= 2950
        }),
{
}

/// A filter excludes a key only if it was not inserted, and one to which nothing
/// was added excludes every key.
pub proof fn lemma_filter_excludes(f: BloomFilter, s: Pairs, i: int)
    requires
        layout::filter_covers(f, s),
    ensures
        0 <= i < s.len() ==> f.may_contain(s[i].0),
        s.len() == 0 ==> forall|key: Seq<u8>| !(#[trigger] f.may_contain(key)),
{
    if 0 <= i < s.len() {
        assert(assoc::has_key(s, s[i].0));
        layout::lemma_filter_contains(f, s, s[i].0);
    }
    if s.len() == 0 {
        assert forall|key: Seq<u8>| !(#[trigger] f.may_contain(key)) by {
            let at = bloom::position(key, 0u8, f.spec_m()) as int;
            assert(0 <= at < f.spec_m());
            assert(!bloom::bit_at(f.spec_bits(), at));
        }
    }
}

} // verus!
