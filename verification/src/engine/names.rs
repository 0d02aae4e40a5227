//! File names within the directory of an engine.
//!
//! - `wal.log`: the log.
//! - `sst_L<level>_<id>.sst`: a table; the id has at least six digits.
//! - `hnsw_<id>.idx`: a snapshot of the vector index.
//! - a name that ends in `.tmp`: a file that is being written.

use crate::codec::{copy_bytes, push_bytes, same_bytes};
use vstd::arithmetic::power::pow;
use vstd::prelude::*;
use vstd::slice::slice_subrange;

verus! {

/// The digit `d` as a byte.
pub open spec fn digit(d: int) -> u8 {
    (48 + d) as u8
}

/// `b` is a digit.
pub open spec fn is_digit(b: u8) -> bool {
    48 <= b <= 57
}

/// `n` in decimal.
pub open spec fn decimal(n: int) -> Seq<u8>
    decreases n,
{
    if n < 10 {
        seq![digit(n)]
    } else {
        decimal(n / 10).push(digit(n % 10))
    }
}

/// `s` with zeros in front up to `width` bytes.
pub open spec fn zero_padded(s: Seq<u8>, width: int) -> Seq<u8> {
    if s.len() >= width {
        s
    } else {
        Seq::new((width - s.len()) as nat, |i: int| 48u8) + s
    }
}

/// `wal.log`.
pub open spec fn wal_name() -> Seq<u8> {
    seq![119u8, 97u8, 108u8, 46u8, 108u8, 111u8, 103u8]
}

/// `sst_L`.
pub open spec fn sst_prefix() -> Seq<u8> {
    seq![115u8, 115u8, 116u8, 95u8, 76u8]
}

/// `sst`.
pub open spec fn sst_ext() -> Seq<u8> {
    seq![115u8, 115u8, 116u8]
}

/// `hnsw_`.
pub open spec fn snapshot_prefix() -> Seq<u8> {
    seq![104u8, 110u8, 115u8, 119u8, 95u8]
}

/// `idx`.
pub open spec fn snapshot_ext() -> Seq<u8> {
    seq![105u8, 100u8, 120u8]
}

/// `tmp`.
pub open spec fn tmp_ext() -> Seq<u8> {
    seq![116u8, 109u8, 112u8]
}

/// The name of the table `id` at `level`.
pub open spec fn sst_name(level: u8, id: u64) -> Seq<u8> {
    sst_prefix() + decimal(level as int) + seq![95u8] + zero_padded(decimal(id as int), 6)
        + seq![46u8] + sst_ext()
}

/// The name of the snapshot `id`.
pub open spec fn snapshot_name(id: u64) -> Seq<u8> {
    snapshot_prefix() + zero_padded(decimal(id as int), 6) + seq![46u8] + snapshot_ext()
}

/// The name of a file while it is written.
pub open spec fn tmp_name(name: Seq<u8>) -> Seq<u8> {
    name + seq![46u8] + tmp_ext()
}

/// The last place of `c` in `s`; -1 if there is none.
pub open spec fn last_index_of(s: Seq<u8>, c: u8) -> int
    decreases s.len(),
{
    if s.len() == 0 {
        -1
    } else if s.last() == c {
        s.len() - 1
    } else {
        last_index_of(s.drop_last(), c)
    }
}

/// The first place of `c` in `s`; the length of `s` if there is none.
pub open spec fn first_index_of(s: Seq<u8>, c: u8) -> int
    decreases s.len(),
{
    if s.len() == 0 {
        0
    } else if s[0] == c {
        0
    } else {
        1 + first_index_of(s.skip(1), c)
    }
}

/// The extension of a file name: what follows the last dot, unless that is
/// the first byte. The name `..` has none.
pub open spec fn extension(name: Seq<u8>) -> Option<Seq<u8>> {
    let dot = last_index_of(name, 46);
    if dot <= 0 || name == seq![46u8, 46u8] {
        None
    } else {
        Some(name.skip(dot + 1))
    }
}

/// The last place of a byte holds it.
proof fn lemma_last_index(s: Seq<u8>, c: u8)
    ensures
        -1 <= last_index_of(s, c) < s.len(),
        last_index_of(s, c) >= 0 ==> s[last_index_of(s, c)] == c,
    decreases s.len(),
{
    if s.len() > 0 && s.last() != c {
        lemma_last_index(s.drop_last(), c);
    }
}

/// An extension is what a name ends in, behind a dot.
pub proof fn lemma_extension(name: Seq<u8>)
    requires
        extension(name) is Some,
    ensures
        extension(name)->0.len() + 1 <= name.len(),
        name.skip(name.len() - extension(name)->0.len()) == extension(name)->0,
        name[name.len() - extension(name)->0.len() - 1] == 46,
{
    let dot = last_index_of(name, 46);
    lemma_last_index(name, 46);
    assert(name.skip(name.len() - name.skip(dot + 1).len()) =~= name.skip(dot + 1));
}

/// A file name without its extension.
pub open spec fn stem(name: Seq<u8>) -> Seq<u8> {
    match extension(name) {
        None => name,
        Some(_) => name.take(last_index_of(name, 46)),
    }
}

/// The number that the digits `s` stand for.
pub open spec fn value_of(s: Seq<u8>) -> int
    decreases s.len(),
{
    if s.len() == 0 {
        0
    } else {
        value_of(s.drop_last()) * 10 + (s.last() - 48)
    }
}

/// All of `s` are digits.
pub open spec fn all_digits(s: Seq<u8>) -> bool {
    forall|i: int| 0 <= i < s.len() ==> is_digit(#[trigger] s[i])
}

/// `s` without a plus sign in front.
pub open spec fn unsigned(s: Seq<u8>) -> Seq<u8> {
    if s.len() > 0 && s[0] == 43 {
        s.skip(1)
    } else {
        s
    }
}

/// The number that `s` stands for, at most `max`: digits, with an optional
/// plus sign in front.
pub open spec fn parse_number(s: Seq<u8>, max: int) -> Option<int> {
    let d = unsigned(s);
    if d.len() > 0 && all_digits(d) && value_of(d) <= max {
        Some(value_of(d))
    } else {
        None
    }
}

/// Level and id of the table with the name `name`.
pub open spec fn parse_sst(name: Seq<u8>) -> Option<(u8, u64)> {
    let s = stem(name);
    if extension(name) != Some(sst_ext()) || !sst_prefix().is_prefix_of(s) {
        None
    } else {
        let rest = s.skip(5);
        let at = first_index_of(rest, 95);
        if at >= rest.len() {
            None
        } else {
            match (
                parse_number(rest.take(at), u8::MAX as int),
                parse_number(rest.skip(at + 1), u64::MAX as int),
            ) {
                (Some(level), Some(id)) => Some((level as u8, id as u64)),
                _ => None,
            }
        }
    }
}

/// The id of the snapshot with the name `name`.
pub open spec fn parse_snapshot(name: Seq<u8>) -> Option<u64> {
    let s = stem(name);
    if extension(name) != Some(snapshot_ext()) || !snapshot_prefix().is_prefix_of(s) {
        None
    } else {
        match parse_number(s.skip(5), u64::MAX as int) {
            Some(id) => Some(id as u64),
            None => None,
        }
    }
}

proof fn lemma_value_digits(n: int)
    requires
        n >= 0,
    ensures
        decimal(n).len() > 0,
        all_digits(decimal(n)),
        value_of(decimal(n)) == n,
    decreases n,
{
    if n < 10 {
        let s = seq![digit(n)];
        reveal_with_fuel(value_of, 2);
        assert(s.drop_last() =~= Seq::empty());
    } else {
        lemma_value_digits(n / 10);
        let s = decimal(n);
        assert(s.drop_last() =~= decimal(n / 10));
    }
}

proof fn lemma_value_padded(s: Seq<u8>, zeros: nat)
    requires
        all_digits(s),
    ensures
        value_of(Seq::new(zeros, |i: int| 48u8) + s) == value_of(s),
        all_digits(Seq::new(zeros, |i: int| 48u8) + s),
    decreases s.len(), zeros,
{
    let z = Seq::new(zeros, |i: int| 48u8);
    let t = z + s;
    if s.len() > 0 {
        let d = s.drop_last();
        assert(all_digits(d)) by {
            assert forall|i: int| 0 <= i < d.len() implies is_digit(#[trigger] d[i]) by {
                assert(d[i] == s[i]);
            }
        }
        lemma_value_padded(d, zeros);
        assert(t.drop_last() =~= z + d);
    } else {
        assert(t =~= z);
        if zeros > 0 {
            let y = Seq::new((zeros - 1) as nat, |i: int| 48u8);
            lemma_value_padded(s, (zeros - 1) as nat);
            assert(z.drop_last() =~= y);
            assert(y + s =~= y);
        }
    }
}

/// A padded number reads back.
proof fn lemma_padded(n: int)
    requires
        n >= 0,
    ensures
        zero_padded(decimal(n), 6).len() > 0,
        all_digits(zero_padded(decimal(n), 6)),
        value_of(zero_padded(decimal(n), 6)) == n,
{
    lemma_value_digits(n);
    let s = decimal(n);
    if s.len() < 6 {
        lemma_value_padded(s, (6 - s.len()) as nat);
    }
}

/// The last dot of `a.b` where `b` has none.
proof fn lemma_last_dot(a: Seq<u8>, b: Seq<u8>)
    requires
        forall|i: int| 0 <= i < b.len() ==> #[trigger] b[i] != 46,
    ensures
        last_index_of(a + seq![46u8] + b, 46) == a.len(),
    decreases b.len(),
{
    let t = a + seq![46u8] + b;
    if b.len() > 0 {
        let d = b.drop_last();
        assert forall|i: int| 0 <= i < d.len() implies #[trigger] d[i] != 46 by {
            assert(d[i] == b[i]);
        }
        lemma_last_dot(a, d);
        assert(t.drop_last() =~= a + seq![46u8] + d);
        assert(t.last() == b[b.len() - 1]);
    } else {
        assert(t.last() == 46);
    }
}

/// Stem and extension of `a.b`.
proof fn lemma_stem(a: Seq<u8>, b: Seq<u8>)
    requires
        a.len() > 1,
        forall|i: int| 0 <= i < b.len() ==> #[trigger] b[i] != 46,
    ensures
        extension(a + seq![46u8] + b) == Some(b),
        stem(a + seq![46u8] + b) == a,
{
    let t = a + seq![46u8] + b;
    lemma_last_dot(a, b);
    assert(t.len() > 2);
    assert(t.skip(a.len() as int + 1) =~= b);
    assert(t.take(a.len() as int) =~= a);
}

/// The first underscore behind digits.
proof fn lemma_first_underscore(a: Seq<u8>, b: Seq<u8>)
    requires
        all_digits(a),
    ensures
        first_index_of(a + seq![95u8] + b, 95) == a.len(),
    decreases a.len(),
{
    let t = a + seq![95u8] + b;
    if a.len() > 0 {
        assert(is_digit(a[0]));
        let s = a.skip(1);
        assert(all_digits(s)) by {
            assert forall|i: int| 0 <= i < s.len() implies is_digit(#[trigger] s[i]) by {
                assert(s[i] == a[i + 1]);
            }
        }
        lemma_first_underscore(s, b);
        assert(t.skip(1) =~= s + seq![95u8] + b);
    } else {
        assert(t[0] == 95);
    }
}

/// The name of a table gives its level and id back, and is no temporary name.
pub proof fn lemma_sst_name(level: u8, id: u64)
    ensures
        extension(sst_name(level, id)) == Some(sst_ext()),
        parse_sst(sst_name(level, id)) == Some((level, id)),
{
    let l = decimal(level as int);
    let n = zero_padded(decimal(id as int), 6);
    let a = sst_prefix() + l + seq![95u8] + n;
    lemma_value_digits(level as int);
    lemma_padded(id as int);
    lemma_stem(a, sst_ext());
    assert(sst_prefix() =~= a.subrange(0, 5));
    let rest = a.skip(5);
    assert(rest =~= l + seq![95u8] + n);
    lemma_first_underscore(l, n);
    assert(rest.take(l.len() as int) =~= l);
    assert(rest.skip(l.len() as int + 1) =~= n);
    assert(is_digit(l[0]));
    assert(is_digit(n[0]));
}

/// The name of a snapshot gives its id back.
pub proof fn lemma_snapshot_name(id: u64)
    ensures
        extension(snapshot_name(id)) == Some(snapshot_ext()),
        parse_snapshot(snapshot_name(id)) == Some(id),
{
    let n = zero_padded(decimal(id as int), 6);
    let a = snapshot_prefix() + n;
    lemma_padded(id as int);
    lemma_stem(a, snapshot_ext());
    assert(snapshot_prefix() =~= a.subrange(0, 5));
    assert(a.skip(5) =~= n);
    assert(is_digit(n[0]));
}

/// A temporary name has its own extension.
pub proof fn lemma_tmp_name(name: Seq<u8>)
    requires
        name.len() > 1,
    ensures
        extension(tmp_name(name)) == Some(tmp_ext()),
{
    lemma_stem(name, tmp_ext());
}

/// Different tables have different names.
pub proof fn lemma_sst_names_differ(a: u8, i: u64, b: u8, j: u64)
    requires
        sst_name(a, i) == sst_name(b, j),
    ensures
        a == b,
        i == j,
{
    lemma_sst_name(a, i);
    lemma_sst_name(b, j);
}

/// The log, tables, snapshots and temporary files have different names.
pub proof fn lemma_names_differ(level: u8, id: u64, name: Seq<u8>)
    requires
        name.len() > 1,
    ensures
        sst_name(level, id) != wal_name(),
        snapshot_name(id) != wal_name(),
        tmp_name(name) != wal_name(),
        tmp_name(name) != sst_name(level, id),
        tmp_name(name) != snapshot_name(id),
        sst_name(level, id) != snapshot_name(id),
        extension(wal_name()) != Some(tmp_ext()),
        extension(wal_name()) != Some(sst_ext()),
{
    lemma_sst_name(level, id);
    lemma_snapshot_name(id);
    lemma_tmp_name(name);
    let a = seq![119u8, 97u8, 108u8];
    let b = seq![108u8, 111u8, 103u8];
    lemma_stem(a, b);
    assert(wal_name() =~= a + seq![46u8] + b);
    assert(b[0] != tmp_ext()[0]);
    assert(b[0] != sst_ext()[0]);
    assert(sst_ext()[1] != tmp_ext()[1]);
    assert(snapshot_ext()[0] != tmp_ext()[0]);
    assert(snapshot_ext()[0] != sst_ext()[0]);
    assert(b[0] != snapshot_ext()[0]);
}

/// A digit in front counts as often as the digits behind it tell.
pub proof fn lemma_value_of(s: Seq<u8>)
    requires
        s.len() > 0,
    ensures
        value_of(s) == (s[0] - 48) * pow(10, (s.len() - 1) as nat) + value_of(s.skip(1)),
    decreases s.len(),
{
    reveal(pow);
    if s.len() == 1 {
        reveal_with_fuel(value_of, 2);
        assert(s.skip(1) =~= Seq::empty());
    } else {
        let d = s.drop_last();
        let p = pow(10, (d.len() - 1) as nat);
        let x: int = s[0] - 48;
        lemma_value_of(d);
        assert(s.skip(1).drop_last() =~= d.skip(1));
        assert(pow(10, (s.len() - 1) as nat) == 10 * p);
        assert((x * p) * 10 == x * (10 * p)) by (nonlinear_arith);
    }
}

/// A number in decimal has no zero in front, unless it is zero.
proof fn lemma_first_digit(n: int)
    requires
        n > 0,
    ensures
        decimal(n).len() > 0,
        decimal(n)[0] != 48,
    decreases n,
{
    if n >= 10 {
        lemma_first_digit(n / 10);
    }
}

/// `s` is `n` in decimal: digits that stand for `n`, `width` of them at least,
/// and if there are more, the first is not zero.
pub open spec fn is_decimal(s: Seq<u8>, n: int, width: int) -> bool {
    &&& s.len() >= width
    &&& all_digits(s)
    &&& value_of(s) == n
    &&& s.len() > width ==> s[0] != 48
}

/// The names of tables and snapshots: `sst_L`, the level, an underscore, the id
/// with six digits at least and `.sst`; `hnsw_`, the id and `.idx`.
pub proof fn lemma_names_in_digits(level: u8, id: u64)
    ensures
        exists|a: Seq<u8>, b: Seq<u8>|
            {
                &&& #[trigger] is_decimal(a, level as int, 1)
                &&& #[trigger] is_decimal(b, id as int, 6)
                &&& sst_name(level, id) == seq![115u8, 115u8, 116u8, 95u8, 76u8] + a + seq![95u8]
                    + b + seq![46u8, 115u8, 115u8, 116u8]
                &&& snapshot_name(id) == seq![104u8, 110u8, 115u8, 119u8, 95u8] + b + seq![
                    46u8,
                    105u8,
                    100u8,
                    120u8,
                ]
            },
{
    let a = decimal(level as int);
    let b = zero_padded(decimal(id as int), 6);
    lemma_value_digits(level as int);
    lemma_padded(id as int);
    if level > 0 {
        lemma_first_digit(level as int);
    }
    if id > 0 {
        lemma_first_digit(id as int);
    }
    assert(is_decimal(a, level as int, 1));
    assert(is_decimal(b, id as int, 6));
    assert(sst_name(level, id) =~= seq![115u8, 115u8, 116u8, 95u8, 76u8] + a + seq![95u8] + b
        + seq![46u8, 115u8, 115u8, 116u8]);
    assert(snapshot_name(id) =~= seq![104u8, 110u8, 115u8, 119u8, 95u8] + b + seq![
        46u8,
        105u8,
        100u8,
        120u8,
    ]);
}

/// A table is named by the digits of its level and its id, as many as there
/// are; but not if one of them is too large.
pub proof fn lemma_sst_digits(a: Seq<u8>, b: Seq<u8>)
    requires
        a.len() > 0,
        b.len() > 0,
        all_digits(a),
        all_digits(b),
    ensures
        parse_sst(
            seq![115u8, 115u8, 116u8, 95u8, 76u8] + a + seq![95u8] + b + seq![
                46u8,
                115u8,
                115u8,
                116u8,
            ],
        ) == (if value_of(a) <= 255 && value_of(b) <= u64::MAX {
            Some((value_of(a) as u8, value_of(b) as u64))
        } else {
            None
        }),
{
    let name = seq![115u8, 115u8, 116u8, 95u8, 76u8] + a + seq![95u8] + b + seq![
        46u8,
        115u8,
        115u8,
        116u8,
    ];
    let s = sst_prefix() + a + seq![95u8] + b;
    assert(name =~= s + seq![46u8] + sst_ext());
    lemma_stem(s, sst_ext());
    assert(sst_prefix() =~= s.subrange(0, 5));
    let rest = s.skip(5);
    assert(rest =~= a + seq![95u8] + b);
    lemma_first_underscore(a, b);
    assert(rest.take(a.len() as int) =~= a);
    assert(rest.skip(a.len() as int + 1) =~= b);
    assert(is_digit(a[0]));
    assert(is_digit(b[0]));
}

/// A snapshot is named by the digits of its id, as many as there are; but not
/// if it is too large.
pub proof fn lemma_snapshot_digits(b: Seq<u8>)
    requires
        b.len() > 0,
        all_digits(b),
    ensures
        parse_snapshot(
            seq![104u8, 110u8, 115u8, 119u8, 95u8] + b + seq![46u8, 105u8, 100u8, 120u8],
        ) == (if value_of(b) <= u64::MAX {
            Some(value_of(b) as u64)
        } else {
            None
        }),
{
    let name = seq![104u8, 110u8, 115u8, 119u8, 95u8] + b + seq![46u8, 105u8, 100u8, 120u8];
    let s = snapshot_prefix() + b;
    assert(name =~= s + seq![46u8] + snapshot_ext());
    lemma_stem(s, snapshot_ext());
    assert(snapshot_prefix() =~= s.subrange(0, 5));
    assert(s.skip(5) =~= b);
    assert(is_digit(b[0]));
}

/// Only a name that starts with `sst_L` and ends in `.sst` is that of a table,
/// and only one that starts with `hnsw_` and ends in `.idx` that of a snapshot.
pub proof fn lemma_name_forms(name: Seq<u8>)
    ensures
        parse_sst(name) is Some ==> name.len() >= 9 && name.take(5) == seq![
            115u8,
            115u8,
            116u8,
            95u8,
            76u8,
        ] && name.skip(name.len() - 4) == seq![46u8, 115u8, 115u8, 116u8],
        parse_snapshot(name) is Some ==> name.len() >= 9 && name.take(5) == seq![
            104u8,
            110u8,
            115u8,
            119u8,
            95u8,
        ] && name.skip(name.len() - 4) == seq![46u8, 105u8, 100u8, 120u8],
{
    if extension(name) is Some {
        lemma_extension(name);
        lemma_last_index(name, 46);
        let e = extension(name)->0;
        let s = stem(name);
        assert(s.len() + 1 + e.len() == name.len());
        if parse_sst(name) is Some {
            assert(name.take(5) =~= s.subrange(0, 5));
            assert(name.take(5) =~= sst_prefix());
            assert(name.skip(name.len() - 4) =~= seq![46u8] + e);
            assert(seq![46u8] + sst_ext() =~= seq![46u8, 115u8, 115u8, 116u8]);
        }
        if parse_snapshot(name) is Some {
            assert(name.take(5) =~= s.subrange(0, 5));
            assert(name.take(5) =~= snapshot_prefix());
            assert(name.skip(name.len() - 4) =~= seq![46u8] + e);
            assert(seq![46u8] + snapshot_ext() =~= seq![46u8, 105u8, 100u8, 120u8]);
        }
    }
}

/// `wal.log`.
pub(crate) fn wal_filename() -> (r: Vec<u8>)
    ensures
        r@ == wal_name(),
{
    let r: Vec<u8> = vec![119u8, 97u8, 108u8, 46u8, 108u8, 111u8, 103u8];
    assert(r@ =~= wal_name());
    r
}

/// `sst`.
pub(crate) fn sst_extension() -> (r: Vec<u8>)
    ensures
        r@ == sst_ext(),
{
    let r: Vec<u8> = vec![115u8, 115u8, 116u8];
    assert(r@ =~= sst_ext());
    r
}

/// `idx`.
fn snapshot_extension() -> (r: Vec<u8>)
    ensures
        r@ == snapshot_ext(),
{
    let r: Vec<u8> = vec![105u8, 100u8, 120u8];
    assert(r@ =~= snapshot_ext());
    r
}

/// `tmp`.
pub(crate) fn tmp_extension() -> (r: Vec<u8>)
    ensures
        r@ == tmp_ext(),
{
    let r: Vec<u8> = vec![116u8, 109u8, 112u8];
    assert(r@ =~= tmp_ext());
    r
}

/// Appends `n` in decimal.
fn push_decimal(out: &mut Vec<u8>, n: u64)
    ensures
        final(out)@ == old(out)@ + decimal(n as int),
    decreases n,
{
    if n < 10 {
        out.push(48 + n as u8);
        assert(out@ =~= old(out)@ + decimal(n as int));
    } else {
        push_decimal(out, n / 10);
        out.push(48 + (n % 10) as u8);
        assert(out@ =~= old(out)@ + decimal(n as int));
    }
}

/// Appends `n` in decimal, with at least six digits.
fn push_padded(out: &mut Vec<u8>, n: u64)
    ensures
        final(out)@ == old(out)@ + zero_padded(decimal(n as int), 6),
{
    let mut digits: Vec<u8> = Vec::new();
    push_decimal(&mut digits, n);
    assert(digits@ =~= decimal(n as int));
    let ghost before = out@;
    let mut len: usize = digits.len();
    while len < 6
        invariant
            digits@.len() <= len,
            len <= 6 || len == digits@.len(),
            out@ == before + Seq::new((len - digits@.len()) as nat, |i: int| 48u8),
        decreases 6 - len,
    {
        out.push(48);
        len = len + 1;
        assert(out@ =~= before + Seq::new((len - digits@.len()) as nat, |i: int| 48u8));
    }
    push_bytes(out, digits.as_slice());
    assert(out@ =~= before + zero_padded(decimal(n as int), 6));
}

/// The name of the table `id` at `level`.
pub fn sst_filename(level: u8, id: u64) -> (r: Vec<u8>)
    ensures
        r@ == sst_name(level, id),
{
    let mut out: Vec<u8> = vec![115u8, 115u8, 116u8, 95u8, 76u8];
    assert(out@ =~= sst_prefix());
    push_decimal(&mut out, level as u64);
    out.push(95);
    push_padded(&mut out, id);
    out.push(46);
    let ext = sst_extension();
    push_bytes(&mut out, ext.as_slice());
    assert(out@ =~= sst_name(level, id));
    out
}

/// The name of the snapshot `id`.
pub fn snapshot_filename(id: u64) -> (r: Vec<u8>)
    ensures
        r@ == snapshot_name(id),
{
    let mut out: Vec<u8> = vec![104u8, 110u8, 115u8, 119u8, 95u8];
    assert(out@ =~= snapshot_prefix());
    push_padded(&mut out, id);
    out.push(46);
    out.push(105);
    out.push(100);
    out.push(120);
    assert(out@ =~= snapshot_name(id));
    out
}

/// The name of a file while it is written.
pub(crate) fn tmp_filename(name: &[u8]) -> (r: Vec<u8>)
    ensures
        r@ == tmp_name(name@),
{
    let mut out: Vec<u8> = copy_bytes(name);
    out.push(46);
    let ext = tmp_extension();
    push_bytes(&mut out, ext.as_slice());
    assert(out@ =~= tmp_name(name@));
    out
}

/// The last dot of a name that has an extension.
fn extension_dot(name: &[u8]) -> (r: Option<usize>)
    ensures
        match r {
            Some(i) => i < name@.len() && i == last_index_of(name@, 46) && extension(name@) is Some,
            None => extension(name@) is None,
        },
{
    let mut i: usize = name.len();
    assert(name@.take(i as int) =~= name@);
    while i > 0 && name[i - 1] != 46
        invariant
            i <= name@.len(),
            last_index_of(name@, 46) == last_index_of(name@.take(i as int), 46),
        decreases i,
    {
        assert(name@.take(i as int).drop_last() =~= name@.take(i - 1));
        i = i - 1;
    }
    if i <= 1 {
        return None;
    }
    if name.len() == 2 && name[0] == 46 && name[1] == 46 {
        assert(name@ =~= seq![46u8, 46u8]);
        return None;
    }
    proof {
        assert(name@.take(i as int).last() == 46);
        if name@ == seq![46u8, 46u8] {
            assert(name@[0] == 46);
        }
    }
    Some(i - 1)
}

/// True if the extension of `name` is `ext`.
pub(crate) fn has_extension(name: &[u8], ext: &[u8]) -> (r: bool)
    ensures
        r == (extension(name@) == Some(ext@)),
{
    match extension_dot(name) {
        None => false,
        Some(i) => {
            let len: usize = name.len();
            let tail = slice_subrange(name, i + 1, len);
            assert(tail@ =~= name@.skip(i + 1));
            same_bytes(tail, ext)
        },
    }
}

/// The name without its extension.
fn stem_of(name: &[u8]) -> (r: &[u8])
    ensures
        r@ == stem(name@),
{
    match extension_dot(name) {
        None => name,
        Some(i) => {
            let r = slice_subrange(name, 0, i);
            assert(r@ =~= name@.take(i as int));
            r
        },
    }
}

/// A longer number is no smaller.
proof fn lemma_value_grows(s: Seq<u8>, i: int)
    requires
        0 <= i <= s.len(),
        all_digits(s),
    ensures
        0 <= value_of(s.take(i)) <= value_of(s),
    decreases s.len(),
{
    if i == s.len() {
        assert(s.take(i) =~= s);
        if s.len() > 0 {
            let d = s.drop_last();
            assert(all_digits(d)) by {
                assert forall|j: int| 0 <= j < d.len() implies is_digit(#[trigger] d[j]) by {
                    assert(d[j] == s[j]);
                }
            }
            lemma_value_grows(d, d.len() as int);
            assert(d.take(d.len() as int) =~= d);
            assert(is_digit(s[s.len() - 1]));
        }
    } else {
        let d = s.drop_last();
        assert(all_digits(d)) by {
            assert forall|j: int| 0 <= j < d.len() implies is_digit(#[trigger] d[j]) by {
                assert(d[j] == s[j]);
            }
        }
        lemma_value_grows(d, i);
        assert(d.take(i) =~= s.take(i));
        assert(is_digit(s[s.len() - 1]));
    }
}

/// Parses a number of at most `max`.
fn read_number(s: &[u8], max: u64) -> (r: Option<u64>)
    ensures
        match r {
            Some(n) => parse_number(s@, max as int) == Some(n as int),
            None => parse_number(s@, max as int) is None,
        },
{
    let start: usize = if s.len() > 0 && s[0] == 43 {
        1
    } else {
        0
    };
    let ghost d = unsigned(s@);
    assert(d =~= s@.skip(start as int));
    if start >= s.len() {
        return None;
    }
    let mut n: u64 = 0;
    let mut i: usize = start;
    assert(d.take(0) =~= Seq::empty());
    while i < s.len()
        invariant
            start <= i <= s@.len(),
            d == s@.skip(start as int),
            d == unsigned(s@),
            n <= max,
            n == value_of(d.take(i - start)),
            forall|j: int| 0 <= j < i - start ==> is_digit(#[trigger] d[j]),
        decreases s@.len() - i,
    {
        let b = s[i];
        let ghost k = i - start;
        assert(d[k] == b);
        if b < 48 || b > 57 {
            assert(!is_digit(d[k]));
            return None;
        }
        let next: u128 = n as u128 * 10 + (b - 48) as u128;
        proof {
            assert(d.take(k + 1).drop_last() =~= d.take(k));
            assert(d.take(k + 1).last() == b);
            if all_digits(d) {
                lemma_value_grows(d, k + 1);
            }
        }
        if next > max as u128 {
            return None;
        }
        n = next as u64;
        i = i + 1;
    }
    assert(d.take(d.len() as int) =~= d);
    Some(n)
}

/// Level and id of the table with the name `name`: `sst_L`, the level, an
/// underscore, the id and `.sst`.
pub fn parse_sst_filename(name: &[u8]) -> (r: Option<(u8, u64)>)
    ensures
        r == parse_sst(name@),
{
    if !has_extension(name, sst_extension().as_slice()) {
        return None;
    }
    let s = stem_of(name);
    let prefix: Vec<u8> = vec![115u8, 115u8, 116u8, 95u8, 76u8];
    assert(prefix@ =~= sst_prefix());
    if s.len() < 5 {
        return None;
    }
    let head = slice_subrange(s, 0, 5);
    if !same_bytes(head, prefix.as_slice()) {
        return None;
    }
    let rest = slice_subrange(s, 5, s.len());
    assert(rest@ =~= s@.skip(5));
    let mut at: usize = 0;
    assert(rest@.skip(0) =~= rest@);
    while at < rest.len() && rest[at] != 95
        invariant
            at <= rest@.len(),
            first_index_of(rest@, 95) == at + first_index_of(rest@.skip(at as int), 95),
        decreases rest@.len() - at,
    {
        assert(rest@.skip(at as int).skip(1) =~= rest@.skip(at + 1));
        at = at + 1;
    }
    if at >= rest.len() {
        return None;
    }
    let left = slice_subrange(rest, 0, at);
    let right = slice_subrange(rest, at + 1, rest.len());
    assert(left@ =~= rest@.take(at as int));
    assert(right@ =~= rest@.skip(at + 1));
    let level = match read_number(left, u8::MAX as u64) {
        Some(n) => n,
        None => {
            return None;
        },
    };
    let id = match read_number(right, u64::MAX) {
        Some(n) => n,
        None => {
            return None;
        },
    };
    Some((level as u8, id))
}

/// The id of the snapshot with the name `name`: `hnsw_`, the id and `.idx`.
pub fn parse_snapshot_filename(name: &[u8]) -> (r: Option<u64>)
    ensures
        r == parse_snapshot(name@),
{
    if !has_extension(name, snapshot_extension().as_slice()) {
        return None;
    }
    let s = stem_of(name);
    let prefix: Vec<u8> = vec![104u8, 110u8, 115u8, 119u8, 95u8];
    assert(prefix@ =~= snapshot_prefix());
    if s.len() < 5 {
        return None;
    }
    let head = slice_subrange(s, 0, 5);
    if !same_bytes(head, prefix.as_slice()) {
        return None;
    }
    let rest = slice_subrange(s, 5, s.len());
    assert(rest@ =~= s@.skip(5));
    read_number(rest, u64::MAX)
}

} // verus!
