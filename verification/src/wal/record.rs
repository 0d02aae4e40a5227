//! Log record format.
//!
//! A record is laid out as
//!
//! ```text
//! CRC32 (4) | kind (1) | key length (4) | value length (4) | key | value
//! ```
//!
//! with little-endian integers. The CRC32 covers every byte after itself.
//! Kind bytes start at 1, so that a tail of zeros is no record. Declared
//! lengths above [`MAX_KEY_LEN`] and [`MAX_VALUE_LEN`] are rejected before
//! they are used.

use crate::checksum;
use crate::checksum::crc32_hash;
use crate::codec;
use crate::codec::{get_u32, push_bytes, push_u32};
use crate::error::{invalid_argument, Error, Result};
use crate::wal::message;
use crate::wal::message::{push_decimal, push_hexadecimal};
use vstd::prelude::*;
use vstd::slice::slice_subrange;
use vstd::string::StringExecFns;

verus! {

/// Bytes before the key: checksum, kind, key length, value length.
pub const HEADER_LEN: usize = 13;

/// Largest key length.
pub const MAX_KEY_LEN: u32 = 65536;

/// Largest value length (64 MiB).
pub const MAX_VALUE_LEN: u32 = 67108864;

const KIND_PUT: u8 = 0x01;

const KIND_DELETE: u8 = 0x02;

const KIND_VECTOR: u8 = 0x03;

/// The mutation a record represents.
#[derive(Debug, Clone, Copy, PartialEq, Eq, Structural)]
pub enum RecordKind {
    /// A value is set.
    Put,
    /// An embedding is set.
    Vector,
    /// The key is deleted. Such a record has no value bytes.
    Delete,
}

/// The byte that stands for `kind`.
pub open spec fn kind_byte(kind: RecordKind) -> u8 {
    match kind {
        RecordKind::Put => 0x01,
        RecordKind::Vector => 0x03,
        RecordKind::Delete => 0x02,
    }
}

/// The kind that `b` stands for.
pub open spec fn byte_kind(b: u8) -> Option<RecordKind> {
    if b == 0x01 {
        Some(RecordKind::Put)
    } else if b == 0x03 {
        Some(RecordKind::Vector)
    } else if b == 0x02 {
        Some(RecordKind::Delete)
    } else {
        None
    }
}

impl RecordKind {
    fn to_byte(self) -> (b: u8)
        ensures
            b == kind_byte(self),
    {
        match self {
            RecordKind::Put => KIND_PUT,
            RecordKind::Vector => KIND_VECTOR,
            RecordKind::Delete => KIND_DELETE,
        }
    }

    fn from_byte(b: u8) -> (kind: Option<RecordKind>)
        ensures
            kind == byte_kind(b),
    {
        if b == KIND_PUT {
            Some(RecordKind::Put)
        } else if b == KIND_VECTOR {
            Some(RecordKind::Vector)
        } else if b == KIND_DELETE {
            Some(RecordKind::Delete)
        } else {
            None
        }
    }
}

/// A decoded record; `key` and `value` borrow from the decoded buffer.
#[derive(Debug, Clone, Copy, PartialEq, Eq)]
pub struct Record<'a> {
    pub kind: RecordKind,
    pub key: &'a [u8],
    pub value: &'a [u8],
}

/// The mathematical content of a record.
#[verifier::ext_equal]
pub struct RecordView {
    pub kind: RecordKind,
    pub key: Seq<u8>,
    pub value: Seq<u8>,
}

impl<'a> View for Record<'a> {
    type V = RecordView;

    open spec fn view(&self) -> RecordView {
        RecordView { kind: self.kind, key: self.key@, value: self.value@ }
    }
}

impl RecordView {
    /// The record may be written: its key is not empty, neither length is
    /// over its maximum, and a deletion has no value.
    pub open spec fn valid(self) -> bool {
        &&& 0 < self.key.len() <= MAX_KEY_LEN
        &&& self.value.len() <= MAX_VALUE_LEN
        &&& self.kind is Delete ==> self.value.len() == 0
    }

    /// The bytes after the checksum.
    pub open spec fn body(self) -> Seq<u8> {
        seq![kind_byte(self.kind)] + codec::le32(self.key.len() as u32) + codec::le32(
            self.value.len() as u32,
        ) + self.key + self.value
    }

    /// The bytes of the record.
    pub open spec fn encoding(self) -> Seq<u8> {
        codec::le32(checksum::crc32(self.body())) + self.body()
    }

    /// Number of bytes of the record.
    pub open spec fn size(self) -> int {
        HEADER_LEN + self.key.len() + self.value.len()
    }
}

/// Bytes needed to encode a record with the given key and value lengths.
pub fn encoded_len(key_len: usize, value_len: usize) -> (n: usize)
    requires
        HEADER_LEN + key_len + value_len <= usize::MAX,
    ensures
        n == HEADER_LEN + key_len + value_len,
{
    HEADER_LEN + key_len + value_len
}

/// Refuses a record that is not valid.
pub(crate) fn check(kind: RecordKind, key: &[u8], value: &[u8]) -> (r: Result<()>)
    ensures
        ({
            let rec = (RecordView { kind, key: key@, value: value@ });
            match r {
                Ok(_) => rec.valid(),
                Err(e) => !rec.valid() && e is InvalidArgument,
            }
        }),
{
    if key.len() == 0 {
        return Err(invalid_argument("empty key"));
    }
    if key.len() > MAX_KEY_LEN as usize {
        return Err(invalid_argument("key length exceeds maximum"));
    }
    if value.len() > MAX_VALUE_LEN as usize {
        return Err(invalid_argument("value length exceeds maximum"));
    }
    if matches!(kind, RecordKind::Delete) && value.len() != 0 {
        return Err(invalid_argument("value must be empty for Delete records"));
    }
    Ok(())
}

/// Appends a record to `out` and returns the number of bytes appended. A
/// record that is not valid is refused and `out` stays as it was.
pub fn encode(kind: RecordKind, key: &[u8], value: &[u8], out: &mut Vec<u8>) -> (r: Result<usize>)
    ensures
        ({
            let rec = (RecordView { kind, key: key@, value: value@ });
            match r {
                Ok(n) => {
                    &&& rec.valid()
                    &&& n == rec.size()
                    &&& final(out)@ == old(out)@ + rec.encoding()
                },
                Err(e) => !rec.valid() && e is InvalidArgument && final(out)@ == old(out)@,
            }
        }),
{
    match check(kind, key, value) {
        Ok(_) => {},
        Err(e) => {
            return Err(e);
        },
    }
    let total = encoded_len(key.len(), value.len());
    let mut body: Vec<u8> = Vec::new();
    body.push(kind.to_byte());
    push_u32(&mut body, key.len() as u32);
    push_u32(&mut body, value.len() as u32);
    push_bytes(&mut body, key);
    push_bytes(&mut body, value);
    let ghost rec = RecordView { kind, key: key@, value: value@ };
    assert(body@ =~= rec.body());
    let crc = crc32_hash(body.as_slice());
    push_u32(out, crc);
    push_bytes(out, body.as_slice());
    assert(out@ =~= old(out)@ + rec.encoding());
    Ok(total)
}

/// Reasons a record may fail to decode.
#[derive(Debug, Clone, PartialEq, Eq)]
pub enum DecodeError {
    /// The buffer ends before the record does. The log reader treats this as
    /// the end of the log.
    Truncated { needed: usize, available: usize },
    /// The stored checksum is not that of the bytes it covers.
    BadCrc { stored: u32, computed: u32 },
    /// The kind byte is not known.
    BadKind { byte: u8 },
    /// A declared length is over its maximum.
    LengthExceedsMax { field: &'static str, len: u32, max: u32 },
    /// The declared key length is zero.
    EmptyKey,
    /// A deletion carries a value.
    UnexpectedDeleteValue,
}

impl DecodeError {
    /// What the error says.
    pub open spec fn text(self) -> Seq<char> {
        match self {
            DecodeError::Truncated { needed, available } => "record truncated: needed "@
                + message::decimal(needed as int) + " bytes, have "@ + message::decimal(
                available as int,
            ),
            DecodeError::BadCrc { stored, computed } => "CRC mismatch: stored 0x"@
                + message::hexadecimal(stored as int, 8) + ", computed 0x"@ + message::hexadecimal(
                computed as int,
                8,
            ),
            DecodeError::BadKind { byte } => "unknown record kind 0x"@ + message::hexadecimal(
                byte as int,
                2,
            ),
            DecodeError::LengthExceedsMax { field, len, max } => field@ + " length "@
                + message::decimal(len as int) + " exceeds maximum "@ + message::decimal(
                max as int,
            ),
            DecodeError::EmptyKey => "record has zero-length key"@,
            DecodeError::UnexpectedDeleteValue => "Delete record carries a non-empty value"@,
        }
    }

    /// What the error says.
    pub fn message(&self) -> (s: String)
        ensures
            s@ == self.text(),
    {
        match self {
            DecodeError::Truncated { needed, available } => {
                let mut s = "record truncated: needed ".to_owned();
                push_decimal(&mut s, *needed as u64);
                s.append(" bytes, have ");
                push_decimal(&mut s, *available as u64);
                s
            },
            DecodeError::BadCrc { stored, computed } => {
                let mut s = "CRC mismatch: stored 0x".to_owned();
                push_hexadecimal(&mut s, *stored, 8);
                s.append(", computed 0x");
                push_hexadecimal(&mut s, *computed, 8);
                s
            },
            DecodeError::BadKind { byte } => {
                let mut s = "unknown record kind 0x".to_owned();
                push_hexadecimal(&mut s, *byte as u32, 2);
                s
            },
            DecodeError::LengthExceedsMax { field, len, max } => {
                let mut s = (*field).to_owned();
                s.append(" length ");
                push_decimal(&mut s, *len as u64);
                s.append(" exceeds maximum ");
                push_decimal(&mut s, *max as u64);
                s
            },
            DecodeError::EmptyKey => "record has zero-length key".to_owned(),
            DecodeError::UnexpectedDeleteValue => {
                "Delete record carries a non-empty value".to_owned()
            },
        }
    }

    /// The crate-wide error for a record that cannot be decoded.
    pub fn into_error(self) -> (e: Error)
        ensures
            e matches Error::Corruption(s) && s@ == self.text(),
    {
        Error::Corruption(self.message())
    }
}

/// What is found at the start of a buffer.
#[verifier::ext_equal]
pub enum Parsed {
    /// A record.
    Record(RecordView),
    /// The buffer ends before `needed` bytes.
    Truncated { needed: int },
    /// The checksum does not match.
    BadCrc { stored: u32, computed: u32 },
    /// The kind byte is unknown.
    BadKind { byte: u8 },
    /// The key length is over its maximum.
    KeyTooLong { len: u32 },
    /// The value length is over its maximum.
    ValueTooLong { len: u32 },
    /// The key length is zero.
    EmptyKey,
    /// A deletion carries a value.
    UnexpectedDeleteValue,
}

/// The declared key length of the record at the start of `b`.
pub open spec fn key_len(b: Seq<u8>) -> int {
    codec::u32_at(b, 5) as int
}

/// The declared value length of the record at the start of `b`.
pub open spec fn value_len(b: Seq<u8>) -> int {
    codec::u32_at(b, 9) as int
}

/// The declared length of the whole record at the start of `b`.
pub open spec fn record_len(b: Seq<u8>) -> int {
    HEADER_LEN + key_len(b) + value_len(b)
}

/// Reads the start of `b`: lengths are judged first, then the checksum, and
/// the kind last.
pub open spec fn parse(b: Seq<u8>) -> Parsed {
    if b.len() < HEADER_LEN {
        Parsed::Truncated { needed: HEADER_LEN as int }
    } else if key_len(b) == 0 {
        Parsed::EmptyKey
    } else if key_len(b) > MAX_KEY_LEN {
        Parsed::KeyTooLong { len: codec::u32_at(b, 5) }
    } else if value_len(b) > MAX_VALUE_LEN {
        Parsed::ValueTooLong { len: codec::u32_at(b, 9) }
    } else if b.len() < record_len(b) {
        Parsed::Truncated { needed: record_len(b) }
    } else if checksum::crc32(b.subrange(4, record_len(b))) != codec::u32_at(b, 0) {
        Parsed::BadCrc {
            stored: codec::u32_at(b, 0),
            computed: checksum::crc32(b.subrange(4, record_len(b))),
        }
    } else {
        match byte_kind(b[4]) {
            None => Parsed::BadKind { byte: b[4] },
            Some(kind) => if kind is Delete && value_len(b) > 0 {
                Parsed::UnexpectedDeleteValue
            } else {
                Parsed::Record(
                    RecordView {
                        kind,
                        key: b.subrange(HEADER_LEN as int, HEADER_LEN + key_len(b)),
                        value: b.subrange(HEADER_LEN + key_len(b), record_len(b)),
                    },
                )
            },
        }
    }
}

/// `e` is the error for what was found in a buffer of `available` bytes.
pub open spec fn explains(e: DecodeError, p: Parsed, available: int) -> bool {
    match p {
        Parsed::Record(_) => false,
        Parsed::Truncated { needed } => e matches DecodeError::Truncated { needed: n, available: a }
            && n == needed && a == available,
        Parsed::BadCrc { stored, computed } => e == (DecodeError::BadCrc { stored, computed }),
        Parsed::BadKind { byte } => e == (DecodeError::BadKind { byte }),
        Parsed::KeyTooLong { len } => e matches DecodeError::LengthExceedsMax { field, len: l, max }
            && field@ == "key"@ && l == len && max == MAX_KEY_LEN,
        Parsed::ValueTooLong { len } => e matches DecodeError::LengthExceedsMax {
            field,
            len: l,
            max,
        } && field@ == "value"@ && l == len && max == MAX_VALUE_LEN,
        Parsed::EmptyKey => e is EmptyKey,
        Parsed::UnexpectedDeleteValue => e is UnexpectedDeleteValue,
    }
}

/// Decodes the first record in `buf`; returns it with the number of bytes
/// that it takes.
pub fn decode(buf: &[u8]) -> (r: std::result::Result<(Record<'_>, usize), DecodeError>)
    ensures
        match r {
            Ok((rec, n)) => {
                &&& parse(buf@) == Parsed::Record(rec@)
                &&& rec@.valid()
                &&& n == rec@.size()
                &&& n <= buf@.len()
                &&& buf@.take(n as int) == rec@.encoding()
            },
            Err(e) => explains(e, parse(buf@), buf@.len() as int),
        },
{
    if buf.len() < HEADER_LEN {
        return Err(DecodeError::Truncated { needed: HEADER_LEN, available: buf.len() });
    }
    let stored_crc = get_u32(buf, 0);
    let kind_byte = buf[4];
    let key_len = get_u32(buf, 5);
    let value_len = get_u32(buf, 9);
    if key_len == 0 {
        return Err(DecodeError::EmptyKey);
    }
    if key_len > MAX_KEY_LEN {
        return Err(DecodeError::LengthExceedsMax { field: "key", len: key_len, max: MAX_KEY_LEN });
    }
    if value_len > MAX_VALUE_LEN {
        return Err(
            DecodeError::LengthExceedsMax { field: "value", len: value_len, max: MAX_VALUE_LEN },
        );
    }
    let key_end = HEADER_LEN + key_len as usize;
    let total = key_end + value_len as usize;
    if buf.len() < total {
        return Err(DecodeError::Truncated { needed: total, available: buf.len() });
    }
    let computed_crc = crc32_hash(slice_subrange(buf, 4, total));
    if computed_crc != stored_crc {
        return Err(DecodeError::BadCrc { stored: stored_crc, computed: computed_crc });
    }
    let kind = match RecordKind::from_byte(kind_byte) {
        Some(kind) => kind,
        None => {
            return Err(DecodeError::BadKind { byte: kind_byte });
        },
    };
    let key = slice_subrange(buf, HEADER_LEN, key_end);
    let value = slice_subrange(buf, key_end, total);
    if matches!(kind, RecordKind::Delete) && value.len() != 0 {
        return Err(DecodeError::UnexpectedDeleteValue);
    }
    proof {
        lemma_parse_sound(buf@);
    }
    Ok((Record { kind, key, value }, total))
}

/// What `parse` accepts starts with the encoding of the record it returns.
pub proof fn lemma_parse_sound(b: Seq<u8>)
    requires
        parse(b) is Record,
    ensures
        parse(b)->Record_0.valid(),
        parse(b)->Record_0.size() == record_len(b) <= b.len(),
        b.take(record_len(b)) == parse(b)->Record_0.encoding(),
{
    let r = parse(b)->Record_0;
    let n = record_len(b);
    vstd::bytes::lemma_auto_spec_u32_to_from_le_bytes();
    assert(codec::le32(codec::u32_at(b, 0)) == b.subrange(0, 4));
    assert(codec::le32(codec::u32_at(b, 5)) == b.subrange(5, 9));
    assert(codec::le32(codec::u32_at(b, 9)) == b.subrange(9, 13));
    assert(r.body() =~= b.subrange(4, n));
    assert(b.take(n) =~= r.encoding());
}

/// Decoding undoes encoding, whatever bytes follow.
pub proof fn lemma_parse_encoding(r: RecordView, rest: Seq<u8>)
    requires
        r.valid(),
    ensures
        r.encoding().len() == r.size(),
        parse(r.encoding() + rest) == Parsed::Record(r),
        record_len(r.encoding() + rest) == r.size(),
{
    let b = r.encoding() + rest;
    let crc = checksum::crc32(r.body());
    let kl = r.key.len() as u32;
    let vl = r.value.len() as u32;
    codec::lemma_le32(crc);
    codec::lemma_le32(kl);
    codec::lemma_le32(vl);
    assert(b.subrange(0, 4) =~= codec::le32(crc));
    assert(b.subrange(5, 9) =~= codec::le32(kl));
    assert(b.subrange(9, 13) =~= codec::le32(vl));
    assert(b[4] == kind_byte(r.kind));
    assert(b.subrange(4, r.size()) =~= r.body());
    assert(b.subrange(13, 13 + kl as int) =~= r.key);
    assert(b.subrange(13 + kl as int, r.size()) =~= r.value);
}

/// A strict prefix of an encoded record is seen as truncated: the end of a
/// log that was cut short is recognised.
pub proof fn lemma_parse_cut(r: RecordView, n: int)
    requires
        r.valid(),
        0 <= n < r.size(),
    ensures
        parse(r.encoding().take(n)) is Truncated,
{
    lemma_parse_encoding(r, Seq::empty());
    let e = r.encoding();
    let b = e.take(n);
    assert(e + Seq::empty() =~= e);
    if n >= HEADER_LEN {
        assert(b.subrange(5, 9) =~= e.subrange(5, 9));
        assert(b.subrange(9, 13) =~= e.subrange(9, 13));
    }
}

/// Damage is never hidden: bytes other than those of `r` do not decode as `r`.
pub proof fn lemma_damage_detected(r: RecordView, b: Seq<u8>)
    requires
        r.valid(),
        !r.encoding().is_prefix_of(b),
    ensures
        parse(b) != Parsed::Record(r),
{
    if parse(b) == Parsed::Record(r) {
        lemma_parse_sound(b);
        lemma_parse_encoding(r, Seq::empty());
        assert(b.subrange(0, r.encoding().len() as int) =~= b.take(r.size()));
    }
}

/// No encoded record is a prefix of another: at most one record starts a
/// buffer.
pub proof fn lemma_record_unique(a: RecordView, b: RecordView, ra: Seq<u8>, rb: Seq<u8>)
    requires
        a.valid(),
        b.valid(),
        a.encoding() + ra == b.encoding() + rb,
    ensures
        a == b,
        ra == rb,
{
    lemma_parse_encoding(a, ra);
    lemma_parse_encoding(b, rb);
    let w = a.encoding() + ra;
    assert(ra =~= w.skip(a.size()));
    assert(rb =~= w.skip(b.size()));
}

/// Where each part of an encoded record stands: the checksum of all that
/// follows it, the kind, the two lengths, the key and the value, whole.
pub proof fn lemma_record_bytes(r: RecordView)
    requires
        r.valid(),
    ensures
        ({
            let b = r.encoding();
            let k = r.key.len() as int;
            let n = 13 + k + r.value.len();
            &&& b.len() == n
            &&& codec::u32_at(b, 0) == checksum::crc32(b.subrange(4, n))
            &&& b[4] == (match r.kind {
                RecordKind::Put => 1u8,
                RecordKind::Delete => 2u8,
                RecordKind::Vector => 3u8,
            })
            &&& codec::u32_at(b, 5) == k
            &&& codec::u32_at(b, 9) == r.value.len()
            &&& b.subrange(13, 13 + k) == r.key
            &&& b.subrange(13 + k, n) == r.value
        }),
{
    let b = r.encoding();
    lemma_parse_encoding(r, Seq::empty());
    assert(b + Seq::empty() =~= b);
    let crc = checksum::crc32(r.body());
    codec::lemma_le32(crc);
    codec::lemma_le32(r.key.len() as u32);
    codec::lemma_le32(r.value.len() as u32);
    assert(b.subrange(0, 4) =~= codec::le32(crc));
    assert(b.subrange(5, 9) =~= codec::le32(r.key.len() as u32));
    assert(b.subrange(9, 13) =~= codec::le32(r.value.len() as u32));
    assert(b.subrange(4, r.size()) =~= r.body());
    assert(b.subrange(13, 13 + r.key.len() as int) =~= r.key);
    assert(b.subrange(13 + r.key.len() as int, r.size()) =~= r.value);
}

/// What is read from bytes that declare a key of `k` and a value of `v` bytes:
/// bytes that end too early are cut off; lengths that no record has are refused
/// before that is asked; and all else is a record exactly if its checksum is
/// that of the bytes after it and its kind byte is known.
pub proof fn lemma_parse_cases(b: Seq<u8>, k: int, v: int)
    requires
        b.len() >= 13 ==> k == codec::u32_at(b, 5) && v == codec::u32_at(b, 9),
    ensures
        b.len() < 13 ==> parse(b) == (Parsed::Truncated { needed: 13 }),
        b.len() >= 13 && k == 0 ==> parse(b) is EmptyKey,
        b.len() >= 13 && k > 65536 ==> parse(b) is KeyTooLong,
        b.len() >= 13 && 0 < k <= 65536 && v > 67108864 ==> parse(b) is ValueTooLong,
        13 <= b.len() < 13 + k + v && 0 < k <= 65536 && v <= 67108864 ==> parse(b) == (
        Parsed::Truncated { needed: 13 + k + v }),
        b.len() >= 13 + k + v && b.len() >= 13 && 0 < k <= 65536 && v <= 67108864 ==> {
            let sound = codec::u32_at(b, 0) == checksum::crc32(b.subrange(4, 13 + k + v));
            &&& parse(b) is BadCrc <==> !sound
            &&& parse(b) is BadKind <==> sound && !(1 <= b[4] <= 3)
            &&& parse(b) is UnexpectedDeleteValue <==> sound && b[4] == 2 && v > 0
            &&& parse(b) is Record <==> sound && 1 <= b[4] <= 3 && (b[4] == 2 ==> v == 0)
        },
{
}

} // verus!
