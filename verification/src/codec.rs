//! Little-endian integers inside byte strings, and copies of byte strings.

use vstd::bytes::*;
use vstd::prelude::*;
use vstd::slice::*;

verus! {

/// The little-endian `u32` at byte `p` of `b`.
pub open spec fn u32_at(b: Seq<u8>, p: int) -> u32 {
    spec_u32_from_le_bytes(b.subrange(p, p + 4))
}

/// The little-endian `u64` at byte `p` of `b`.
pub open spec fn u64_at(b: Seq<u8>, p: int) -> u64 {
    spec_u64_from_le_bytes(b.subrange(p, p + 8))
}

/// The four bytes of `x`, least significant first.
pub open spec fn le32(x: u32) -> Seq<u8> {
    spec_u32_to_le_bytes(x)
}

/// The eight bytes of `x`, least significant first.
pub open spec fn le64(x: u64) -> Seq<u8> {
    spec_u64_to_le_bytes(x)
}

/// An encoded `u32` has four bytes and reads back as the same number.
pub broadcast proof fn lemma_le32(x: u32)
    ensures
        #[trigger] le32(x).len() == 4,
        spec_u32_from_le_bytes(le32(x)) == x,
{
    lemma_auto_spec_u32_to_from_le_bytes();
    assert(spec_u32_to_le_bytes(x).len() == 4);
}

/// An encoded `u64` has eight bytes and reads back as the same number.
pub broadcast proof fn lemma_le64(x: u64)
    ensures
        #[trigger] le64(x).len() == 8,
        spec_u64_from_le_bytes(le64(x)) == x,
{
    lemma_auto_spec_u64_to_from_le_bytes();
    assert(spec_u64_to_le_bytes(x).len() == 8);
}

/// Reads the `u32` at byte `p`.
pub(crate) fn get_u32(b: &[u8], p: usize) -> (x: u32)
    requires
        p + 4 <= b@.len(),
    ensures
        x == u32_at(b@, p as int),
{
    let _n: usize = b.len();
    u32_from_le_bytes(slice_subrange(b, p, p + 4))
}

/// Reads the `u64` at byte `p`.
pub(crate) fn get_u64(b: &[u8], p: usize) -> (x: u64)
    requires
        p + 8 <= b@.len(),
    ensures
        x == u64_at(b@, p as int),
{
    let _n: usize = b.len();
    u64_from_le_bytes(slice_subrange(b, p, p + 8))
}

/// Appends the bytes `s`.
pub(crate) fn push_bytes(out: &mut Vec<u8>, s: &[u8])
    ensures
        final(out)@ == old(out)@ + s@,
{
    out.extend_from_slice(s);
    assert(out@ =~= old(out)@ + s@);
}

/// Appends `x` in little-endian order.
pub(crate) fn push_u32(out: &mut Vec<u8>, x: u32)
    ensures
        final(out)@ == old(out)@ + le32(x),
{
    let b = u32_to_le_bytes(x);
    push_bytes(out, b.as_slice());
}

/// Appends `x` in little-endian order.
pub(crate) fn push_u64(out: &mut Vec<u8>, x: u64)
    ensures
        final(out)@ == old(out)@ + le64(x),
{
    let b = u64_to_le_bytes(x);
    push_bytes(out, b.as_slice());
}

/// A copy of the bytes `s`.
pub(crate) fn copy_bytes(s: &[u8]) -> (v: Vec<u8>)
    ensures
        v@ == s@,
{
    slice_to_vec(s)
}

/// A copy of the bytes of `s` from `from` up to, not including, `to`.
pub(crate) fn copy_range(s: &[u8], from: usize, to: usize) -> (v: Vec<u8>)
    requires
        from <= to <= s@.len(),
    ensures
        v@ == s@.subrange(from as int, to as int),
{
    slice_to_vec(slice_subrange(s, from, to))
}

/// True if the two byte strings are equal.
pub(crate) fn same_bytes(a: &[u8], b: &[u8]) -> (same: bool)
    ensures
        same == (a@ == b@),
{
    if a.len() != b.len() {
        return false;
    }
    let mut i: usize = 0;
    while i < a.len()
        invariant
            i <= a@.len() == b@.len(),
            forall|j: int| 0 <= j < i ==> a@[j] == b@[j],
        decreases a@.len() - i,
    {
        if a[i] != b[i] {
            return false;
        }
        i = i + 1;
    }
    assert(a@ =~= b@);
    true
}

/// The bytes of the numbers `s`.
pub open spec fn u32s_bytes(s: Seq<u32>) -> Seq<u8>
    decreases s.len(),
{
    if s.len() == 0 {
        Seq::empty()
    } else {
        u32s_bytes(s.drop_last()) + le32(s.last())
    }
}

/// The bytes of several numbers are those of each in turn.
pub proof fn lemma_u32s_digits(s: Seq<u32>)
    ensures
        u32s_bytes(s).len() == 4 * s.len(),
        forall|i: int|
            0 <= i < s.len() ==> u32s_bytes(s).subrange(4 * i, 4 * i + 4) == spec_u32_to_le_bytes(
                #[trigger] s[i],
            ),
    decreases s.len(),
{
    if s.len() > 0 {
        let d = s.drop_last();
        let b = u32s_bytes(s);
        lemma_u32s_digits(d);
        lemma_le32(s.last());
        assert forall|i: int| 0 <= i < s.len() implies b.subrange(4 * i, 4 * i + 4)
            == spec_u32_to_le_bytes(#[trigger] s[i]) by {
            if i < d.len() {
                assert(d[i] == s[i]);
                assert(b.subrange(4 * i, 4 * i + 4) =~= u32s_bytes(d).subrange(4 * i, 4 * i + 4));
            } else {
                assert(b.subrange(4 * i, 4 * i + 4) =~= le32(s.last()));
            }
        }
    }
}

/// The `n` numbers at the start of `b`.
pub open spec fn numbers(b: Seq<u8>, n: int) -> Seq<u32> {
    Seq::new(n as nat, |i: int| u32_at(b, 4 * i))
}

/// Numbers read back as they were written, whatever follows.
pub proof fn lemma_numbers(s: Seq<u32>, rest: Seq<u8>)
    ensures
        u32s_bytes(s).len() == 4 * s.len(),
        numbers(u32s_bytes(s) + rest, s.len() as int) == s,
    decreases s.len(),
{
    let b = u32s_bytes(s);
    if s.len() == 0 {
        assert(numbers(b + rest, 0) =~= s);
    } else {
        let init = s.drop_last();
        let last = le32(s.last());
        lemma_le32(s.last());
        lemma_numbers(init, last + rest);
        let whole = b + rest;
        assert(whole =~= u32s_bytes(init) + (last + rest));
        let got = numbers(whole, s.len() as int);
        assert forall|i: int| 0 <= i < s.len() implies got[i] == s[i] by {
            if i < init.len() {
                assert(numbers(whole, init.len() as int)[i] == init[i]);
            } else {
                assert(whole.subrange(4 * i, 4 * i + 4) =~= last);
            }
        }
        assert(got =~= s);
    }
}

/// Appends the numbers `s`.
pub(crate) fn push_numbers(s: &Vec<u32>, out: &mut Vec<u8>)
    ensures
        final(out)@ == old(out)@ + u32s_bytes(s@),
{
    let ghost before = out@;
    let n = s.len();
    assert(before + u32s_bytes(s@.take(0)) =~= before);
    for i in 0..n
        invariant
            n == s@.len(),
            out@ == before + u32s_bytes(s@.take(i as int)),
    {
        push_u32(out, s[i]);
        proof {
            assert(s@.take(i + 1).drop_last() =~= s@.take(i as int));
            assert(out@ =~= before + u32s_bytes(s@.take(i + 1)));
        }
    }
    assert(s@.take(n as int) =~= s@);
}

/// Reads `n` numbers from byte `p` on.
pub(crate) fn read_numbers(body: &[u8], p: usize, n: u32) -> (r: Vec<u32>)
    requires
        p + 4 * n <= body@.len(),
    ensures
        r@ == numbers(body@.skip(p as int), n as int),
{
    let _len: usize = body.len();
    let mut out: Vec<u32> = Vec::new();
    let ghost rest = body@.skip(p as int);
    let mut i: u32 = 0;
    let mut at: usize = p;
    while i < n
        invariant
            i <= n,
            at == p + 4 * i,
            p + 4 * n <= body@.len(),
            body@.len() <= usize::MAX,
            rest == body@.skip(p as int),
            out@ == numbers(rest, n as int).take(i as int),
        decreases n - i,
    {
        let x = get_u32(body, at);
        proof {
            assert(rest.subrange(4 * i as int, 4 * i + 4) =~= body@.subrange(at as int, at + 4));
        }
        out.push(x);
        assert(out@ =~= numbers(rest, n as int).take(i + 1));
        i = i + 1;
        at = at + 4;
    }
    assert(out@ =~= numbers(rest, n as int));
    out
}

} // verus!
