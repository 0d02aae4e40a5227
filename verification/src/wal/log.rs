//! The content of a whole log.

use crate::codec;
use crate::wal::record;
use crate::wal::record::{Parsed, RecordView};
use vstd::prelude::*;

verus! {

/// Format version.
pub const FORMAT_VERSION: u32 = 1;

/// Bytes of the file header: magic and version.
pub const FILE_HEADER_LEN: usize = 12;

/// The first bytes of every log: `SASTWAL1`.
pub open spec fn magic() -> Seq<u8> {
    seq![83u8, 65u8, 83u8, 84u8, 87u8, 65u8, 76u8, 49u8]
}

/// The file header.
pub open spec fn header() -> Seq<u8> {
    magic() + codec::le32(FORMAT_VERSION)
}

/// `b` is a part of the header: a log that was being started.
pub open spec fn is_cut(b: Seq<u8>) -> bool {
    b.is_prefix_of(header()) && b.len() < header().len()
}

/// The header has a fixed length: eight bytes of magic and the version.
pub proof fn lemma_header_len()
    ensures
        header().len() == FILE_HEADER_LEN,
        header().len() == 12,
        header().take(8) == seq![83u8, 65u8, 83u8, 84u8, 87u8, 65u8, 76u8, 49u8],
        codec::u32_at(header(), 8) == 1,
{
    codec::lemma_le32(FORMAT_VERSION);
    assert(header().take(8) =~= magic());
    assert(header().subrange(8, 12) =~= codec::le32(FORMAT_VERSION));
}

/// The bytes of `recs`, one after the other.
pub open spec fn encodings(recs: Seq<RecordView>) -> Seq<u8>
    decreases recs.len(),
{
    if recs.len() == 0 {
        Seq::empty()
    } else {
        encodings(recs.drop_last()) + recs.last().encoding()
    }
}

/// The records that `b` starts with.
pub open spec fn records(b: Seq<u8>) -> Seq<RecordView>
    decreases b.len(),
{
    match record::parse(b) {
        Parsed::Record(r) => if 0 < r.size() <= b.len() {
            seq![r] + records(b.skip(r.size()))
        } else {
            Seq::empty()
        },
        _ => Seq::empty(),
    }
}

/// What follows the records that `b` starts with.
pub open spec fn leftover(b: Seq<u8>) -> Seq<u8>
    decreases b.len(),
{
    match record::parse(b) {
        Parsed::Record(r) => if 0 < r.size() <= b.len() {
            leftover(b.skip(r.size()))
        } else {
            b
        },
        _ => b,
    }
}

/// Replay of `b` ends well: what follows the records is nothing, or a record
/// that was cut short.
pub open spec fn ends_clean(b: Seq<u8>) -> bool {
    record::parse(leftover(b)) is Truncated
}

/// The log file `b` up to the end of its last whole record.
pub open spec fn whole(b: Seq<u8>) -> Seq<u8> {
    b.take(b.len() - leftover(b.skip(FILE_HEADER_LEN as int)).len())
}

/// All of `recs` may be written.
pub open spec fn all_valid(recs: Seq<RecordView>) -> bool {
    forall|i: int| 0 <= i < recs.len() ==> (#[trigger] recs[i]).valid()
}

/// The first record goes in front.
pub proof fn lemma_encodings_first(recs: Seq<RecordView>)
    requires
        recs.len() > 0,
    ensures
        encodings(recs) == recs[0].encoding() + encodings(recs.skip(1)),
    decreases recs.len(),
{
    if recs.len() == 1 {
        reveal_with_fuel(encodings, 2);
        assert(recs.drop_last() =~= Seq::empty());
        assert(recs.skip(1) =~= Seq::empty());
        assert(encodings(recs) =~= recs[0].encoding());
    } else {
        lemma_encodings_first(recs.drop_last());
        assert(recs.drop_last().skip(1) =~= recs.skip(1).drop_last());
        assert(encodings(recs) =~= recs[0].encoding() + encodings(recs.skip(1)));
    }
}

/// Records come back in the order in which they were written; what follows
/// them is judged on its own.
pub proof fn lemma_records_of_encodings(recs: Seq<RecordView>, tail: Seq<u8>)
    requires
        all_valid(recs),
    ensures
        records(encodings(recs) + tail) == recs + records(tail),
        leftover(encodings(recs) + tail) == leftover(tail),
    decreases recs.len(),
{
    let b = encodings(recs) + tail;
    if recs.len() == 0 {
        assert(b =~= tail);
        assert(recs + records(tail) =~= records(tail));
    } else {
        let r = recs[0];
        let after = encodings(recs.skip(1)) + tail;
        lemma_encodings_first(recs);
        assert(b =~= r.encoding() + after);
        record::lemma_parse_encoding(r, after);
        assert(b.skip(r.size()) =~= after);
        assert(all_valid(recs.skip(1)));
        lemma_records_of_encodings(recs.skip(1), tail);
        assert(recs + records(tail) =~= seq![r] + (recs.skip(1) + records(tail)));
    }
}

/// A log is the records that it replays to, and what follows them.
pub proof fn lemma_records_whole(b: Seq<u8>)
    ensures
        b == encodings(records(b)) + leftover(b),
        all_valid(records(b)),
    decreases b.len(),
{
    let none = Seq::<u8>::empty();
    match record::parse(b) {
        Parsed::Record(r) => {
            record::lemma_parse_sound(b);
            record::lemma_parse_encoding(r, none);
            let rest = b.skip(r.size());
            lemma_records_whole(rest);
            let recs = records(b);
            assert(recs == seq![r] + records(rest));
            assert(recs.skip(1) =~= records(rest));
            assert(recs[0] == r);
            lemma_encodings_first(recs);
            assert(b =~= b.take(r.size()) + rest);
            assert(b =~= encodings(recs) + leftover(b));
            assert forall|i: int| 0 <= i < recs.len() implies (#[trigger] recs[i]).valid() by {
                if i > 0 {
                    assert(recs[i] == records(rest)[i - 1]);
                }
            }
        },
        _ => {
            assert(none + b =~= b);
        },
    }
}

/// The whole part of a log is its header and the records that it replays to.
pub proof fn lemma_whole(b: Seq<u8>)
    requires
        header().is_prefix_of(b),
    ensures
        whole(b) == header() + encodings(records(b.skip(FILE_HEADER_LEN as int))),
        whole(b).len() <= b.len(),
        leftover(b.skip(FILE_HEADER_LEN as int)).len() == 0 ==> whole(b) == b,
{
    let body = b.skip(12);
    lemma_header_len();
    lemma_records_whole(body);
    assert(b =~= header() + body) by {
        assert(b.subrange(0, 12) =~= header());
    }
    assert(whole(b) =~= header() + encodings(records(body)));
}

/// A log that was written whole replays to the records that were written, and
/// ends well.
pub proof fn lemma_replay_whole(recs: Seq<RecordView>)
    requires
        all_valid(recs),
    ensures
        records(encodings(recs)) == recs,
        ends_clean(encodings(recs)),
{
    let none = Seq::<u8>::empty();
    lemma_records_of_encodings(recs, none);
    assert(encodings(recs) + none =~= encodings(recs));
    assert(recs + records(none) =~= recs);
}

/// A log that was cut anywhere replays to the records that were written
/// whole, and ends well.
pub proof fn lemma_replay_cut(recs: Seq<RecordView>, n: int)
    requires
        all_valid(recs),
        0 <= n <= encodings(recs).len(),
    ensures
        records(encodings(recs).take(n)).is_prefix_of(recs),
        ends_clean(encodings(recs).take(n)),
        forall|m: int|
            0 <= m <= recs.len() && (#[trigger] encodings(recs.take(m))).len() <= n
                ==> recs.take(m).is_prefix_of(records(encodings(recs).take(n))),
    decreases recs.len(),
{
    let whole = encodings(recs);
    if recs.len() == 0 {
        assert(whole.take(n) =~= Seq::<u8>::empty());
        assert(recs.subrange(0, 0) =~= Seq::<RecordView>::empty());
        assert forall|m: int|
            0 <= m <= recs.len() && (#[trigger] encodings(recs.take(m))).len() <= n implies recs.take(
            m,
        ).is_prefix_of(records(encodings(recs).take(n))) by {
            assert(recs.take(m) =~= Seq::<RecordView>::empty());
        }
    } else {
        let init = recs.drop_last();
        let last = recs.last();
        assert(all_valid(init));
        record::lemma_parse_encoding(last, Seq::empty());
        if n <= encodings(init).len() {
            lemma_replay_cut(init, n);
            assert(whole.take(n) =~= encodings(init).take(n));
            let got = records(encodings(init).take(n));
            assert(got =~= recs.subrange(0, got.len() as int));
            assert forall|m: int|
                0 <= m <= recs.len() && (#[trigger] encodings(recs.take(m))).len()
                    <= n implies recs.take(m).is_prefix_of(got) by {
                if m < recs.len() {
                    assert(recs.take(m) =~= init.take(m));
                } else {
                    assert(recs.take(m) =~= recs);
                    assert(false);
                }
            }
        } else {
            let k = n - encodings(init).len();
            let tail = last.encoding().take(k);
            assert(whole.take(n) =~= encodings(init) + tail);
            lemma_records_of_encodings(init, tail);
            if k < last.size() {
                record::lemma_parse_cut(last, k);
                let got = records(whole.take(n));
                assert(got =~= init);
                assert(init =~= recs.subrange(0, init.len() as int));
                assert forall|m: int|
                    0 <= m <= recs.len() && (#[trigger] encodings(recs.take(m))).len()
                        <= n implies recs.take(m).is_prefix_of(got) by {
                    if m < recs.len() {
                        assert(recs.take(m) =~= init.subrange(0, m));
                        assert(recs.take(m) =~= got.subrange(0, m));
                    } else {
                        assert(recs.take(m) =~= recs);
                        assert(false);
                    }
                }
            } else {
                assert(whole.take(n) =~= whole);
                lemma_replay_whole(recs);
                assert(recs =~= recs.subrange(0, recs.len() as int));
                assert forall|m: int|
                    0 <= m <= recs.len() && (#[trigger] encodings(recs.take(m))).len()
                        <= n implies recs.take(m).is_prefix_of(recs) by {
                    assert(recs.take(m) =~= recs.subrange(0, m));
                }
            }
        }
    }
}

} // verus!
