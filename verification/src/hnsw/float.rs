//! Single-precision floats as bit patterns.
//!
//! The index stores and compares floats; it does no arithmetic on them. A
//! float is held as its 32 bits (IEEE 754), and compared through an integer
//! that orders like it.

use vstd::prelude::*;

verus! {

/// The magnitude bits of a float.
pub open spec fn magnitude(bits: u32) -> int {
    bits as int % 0x8000_0000
}

/// Neither infinite nor not a number.
pub open spec fn is_finite(bits: u32) -> bool {
    magnitude(bits) < 0x7f80_0000
}

/// Not a number.
pub open spec fn is_nan(bits: u32) -> bool {
    magnitude(bits) > 0x7f80_0000
}

/// An integer that orders like the float: the zeros are equal. What is not a
/// number has no place in that order; in a list that is sorted it comes last.
pub open spec fn rank(bits: u32) -> int {
    if is_nan(bits) {
        0x8000_0000
    } else if bits >= 0x8000_0000 {
        -magnitude(bits)
    } else {
        magnitude(bits)
    }
}

/// The comparison of floats: nothing is below what is not a number, nor that
/// below anything.
pub open spec fn below(a: u32, b: u32) -> bool {
    !is_nan(a) && !is_nan(b) && rank(a) < rank(b)
}

/// All components are finite.
pub open spec fn all_finite(v: Seq<u32>) -> bool {
    forall|i: int| 0 <= i < v.len() ==> is_finite(#[trigger] v[i])
}

/// Floats by their bits, one sign bit and a magnitude: of two without a sign
/// the larger bits are larger, of two with a sign the smaller ones, and a float
/// with a sign is below one without, unless both are zero. What is not a number
/// is below nothing, and nothing is below it.
pub proof fn lemma_order(a: u32, b: u32)
    ensures
        ({
            let x = if a >= 0x8000_0000 {
                a - 0x8000_0000
            } else {
                a as int
            };
            let y = if b >= 0x8000_0000 {
                b - 0x8000_0000
            } else {
                b as int
            };
            &&& below(a, b) <==> {
                &&& x <= 0x7f80_0000
                &&& y <= 0x7f80_0000
                &&& if a < 0x8000_0000 && b < 0x8000_0000 {
                    a < b
                } else if a >= 0x8000_0000 && b >= 0x8000_0000 {
                    b < a
                } else {
                    a >= 0x8000_0000 && (x != 0 || y != 0)
                }
            }
            &&& x <= 0x7f80_0000 && y <= 0x7f80_0000 ==> (rank(a) == rank(b) <==> a == b || x == 0
                && y == 0)
            &&& x <= 0x7f80_0000 && y <= 0x7f80_0000 ==> (rank(a) < rank(b) <==> below(a, b))
            &&& x <= 0x7f80_0000 && y > 0x7f80_0000 ==> rank(a) < rank(b)
            &&& x > 0x7f80_0000 && y > 0x7f80_0000 ==> rank(a) == rank(b)
            &&& is_nan(a) <==> x > 0x7f80_0000
            &&& is_finite(a) <==> x < 0x7f80_0000
        }),
{
}

/// Components are finite if none is infinite or not a number.
pub proof fn lemma_finite(v: Seq<u32>)
    ensures
        all_finite(v) <==> forall|i: int|
            0 <= i < v.len() ==> (#[trigger] v[i]) % 0x8000_0000 < 0x7f80_0000,
{
    assert forall|i: int| 0 <= i < v.len() implies is_finite(#[trigger] v[i]) == (v[i]
        % 0x8000_0000 < 0x7f80_0000) by {
        lemma_order(v[i], v[i]);
    }
    if all_finite(v) {
        assert forall|i: int| 0 <= i < v.len() implies (#[trigger] v[i]) % 0x8000_0000
            < 0x7f80_0000 by {
            assert(is_finite(v[i]));
        }
    }
}

/// True if the float `a` is less than the float `b`.
pub fn is_below(a: u32, b: u32) -> (r: bool)
    ensures
        r == below(a, b),
{
    let nan: i64 = 0x8000_0000;
    let x = order_code(a);
    let y = order_code(b);
    x < y && y < nan
}

/// True if `a` goes before `b` in a list that is sorted.
pub fn less(a: u32, b: u32) -> (r: bool)
    ensures
        r == (rank(a) < rank(b)),
{
    order_code(a) < order_code(b)
}

/// An integer that orders like the float.
fn order_code(bits: u32) -> (r: i64)
    ensures
        r == rank(bits),
{
    let m: i64 = (bits % 0x8000_0000u32) as i64;
    if m > 0x7f80_0000 {
        0x8000_0000
    } else if bits >= 0x8000_0000 {
        -m
    } else {
        m
    }
}

/// True if all components are finite.
pub fn check_finite(v: &[u32]) -> (r: bool)
    ensures
        r == all_finite(v@),
{
    let n = v.len();
    for i in 0..n
        invariant
            n == v@.len(),
            forall|j: int| 0 <= j < i ==> is_finite(#[trigger] v@[j]),
    {
        if v[i] % 0x8000_0000u32 >= 0x7f80_0000 {
            assert(!is_finite(v@[i as int]));
            return false;
        }
    }
    true
}

} // verus!
