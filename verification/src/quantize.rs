//! Scalar quantization of embeddings: one byte per component.
//!
//! A [`ScalarQuantizer`] learns the range of each dimension from a sample and
//! maps a component to its place in that range, in 256 steps. Dimensions have
//! ranges of their own, since those of embeddings differ widely. A component
//! outside the range goes to its nearer end.
//!
//! Floats are held as bit patterns; the arithmetic of a step is the caller's.

use crate::error::{invalid_argument, Result};
use crate::hnsw::float;
use crate::hnsw::float::{check_finite, less};
use vstd::prelude::*;
use vstd::slice::slice_to_vec;

verus! {

/// A trained quantizer.
#[derive(Debug)]
pub struct ScalarQuantizer {
    /// Smallest component of each dimension.
    min: Vec<u32>,
    /// Largest component of each dimension.
    max: Vec<u32>,
}

/// All vectors of `sample` have `dim` components, all finite.
pub open spec fn sample_ok(sample: Seq<Vec<u32>>, dim: nat) -> bool {
    forall|i: int|
        0 <= i < sample.len() ==> (#[trigger] sample[i])@.len() == dim && float::all_finite(
            sample[i]@,
        )
}

/// `lo` is the smallest component of dimension `d` among the first `n`
/// vectors.
pub open spec fn is_smallest(sample: Seq<Vec<u32>>, n: int, d: int, lo: u32) -> bool {
    &&& forall|i: int|
        0 <= i < n ==> float::rank(lo) <= float::rank((#[trigger] sample[i])@[d])
    &&& exists|i: int| 0 <= i < n && (#[trigger] sample[i])@[d] == lo
}

/// `hi` is the largest component of dimension `d` among the first `n`
/// vectors.
pub open spec fn is_largest(sample: Seq<Vec<u32>>, n: int, d: int, hi: u32) -> bool {
    &&& forall|i: int|
        0 <= i < n ==> float::rank((#[trigger] sample[i])@[d]) <= float::rank(hi)
    &&& exists|i: int| 0 <= i < n && (#[trigger] sample[i])@[d] == hi
}

/// `step` gives a byte for `x`, and `value` gives `y` for that byte.
pub open spec fn goes_through<Q: Fn(u32, u32, u32) -> u8, V: Fn(u32, u32, u8) -> u32>(
    step: &Q,
    value: &V,
    lo: u32,
    hi: u32,
    x: u32,
    y: u32,
) -> bool {
    exists|b: u8|
        call_ensures(step, (lo, hi, x), b) && #[trigger] call_ensures(value, (lo, hi, b), y)
}

impl ScalarQuantizer {
    /// Smallest component of each dimension.
    pub closed spec fn lo(&self) -> Seq<u32> {
        self.min@
    }

    /// Largest component of each dimension.
    pub closed spec fn hi(&self) -> Seq<u32> {
        self.max@
    }

    /// Both ends of each range are known.
    pub open spec fn wf(&self) -> bool {
        self.lo().len() == self.hi().len()
    }

    /// The range of dimension `d` is a single value.
    pub open spec fn is_flat(&self, d: int) -> bool {
        float::rank(self.lo()[d]) == float::rank(self.hi()[d])
    }

    /// `y` is what the component `x` of dimension `d` comes back as.
    pub open spec fn comes_back<Q: Fn(u32, u32, u32) -> u8, V: Fn(u32, u32, u8) -> u32>(
        &self,
        step: &Q,
        value: &V,
        d: int,
        x: u32,
        y: u32,
    ) -> bool {
        if self.is_flat(d) {
            y == self.lo()[d]
        } else {
            exists|b: u8|
                call_ensures(step, (self.lo()[d], self.hi()[d], x), b) && #[trigger] call_ensures(
                    value,
                    (self.lo()[d], self.hi()[d], b),
                    y,
                )
        }
    }

    /// A dimension is flat if both ends are one value, and only then.
    pub proof fn lemma_flat(&self, d: int)
        requires
            !float::is_nan(self.lo()[d]),
            !float::is_nan(self.hi()[d]),
        ensures
            self.is_flat(d) <==> (self.lo()[d] == self.hi()[d] || self.lo()[d] % 0x8000_0000 == 0
                && self.hi()[d] % 0x8000_0000 == 0),
    {
        float::lemma_order(self.lo()[d], self.hi()[d]);
    }

    /// A sample can be trained on if all its vectors have one dimension, and no
    /// component is infinite or not a number; and no other can.
    pub proof fn lemma_sample_ok(sample: Seq<Vec<u32>>, dim: nat)
        ensures
            sample_ok(sample, dim) <==> forall|i: int|
                0 <= i < sample.len() ==> (#[trigger] sample[i])@.len() == dim && forall|j: int|
                    0 <= j < sample[i]@.len() ==> (#[trigger] sample[i]@[j]) % 0x8000_0000
                        < 0x7f80_0000,
    {
        assert forall|i: int| 0 <= i < sample.len() implies float::all_finite(
            (#[trigger] sample[i])@,
        ) == (forall|j: int|
            0 <= j < sample[i]@.len() ==> (#[trigger] sample[i]@[j]) % 0x8000_0000 < 0x7f80_0000) by {
            float::lemma_finite(sample[i]@);
        }
    }

    /// What training promises: each range starts and ends at a component of the
    /// sample, and holds every component of it.
    pub proof fn lemma_ranges_hold_the_sample(&self, sample: Seq<Vec<u32>>, i: int, d: int)
        requires
            0 <= i < sample.len(),
            0 <= d < sample[i]@.len(),
            sample_ok(sample, sample[i]@.len()),
            is_smallest(sample, sample.len() as int, d, self.lo()[d]),
            is_largest(sample, sample.len() as int, d, self.hi()[d]),
        ensures
            !float::below(sample[i]@[d], self.lo()[d]),
            !float::below(self.hi()[d], sample[i]@[d]),
            exists|j: int| 0 <= j < sample.len() && (#[trigger] sample[j])@[d] == self.lo()[d],
            exists|j: int| 0 <= j < sample.len() && (#[trigger] sample[j])@[d] == self.hi()[d],
            self.lo()[d] % 0x8000_0000 < 0x7f80_0000,
            self.hi()[d] % 0x8000_0000 < 0x7f80_0000,
    {
        let a = choose|j: int| 0 <= j < sample.len() && (#[trigger] sample[j])@[d] == self.lo()[d];
        let b = choose|j: int| 0 <= j < sample.len() && (#[trigger] sample[j])@[d] == self.hi()[d];
        assert(float::all_finite(sample[a]@));
        assert(float::all_finite(sample[b]@));
        assert(float::is_finite(sample[a]@[d]));
        assert(float::is_finite(sample[b]@[d]));
        float::lemma_order(self.lo()[d], self.hi()[d]);
        float::lemma_order(self.hi()[d], self.lo()[d]);
    }

    /// Learns the range of each dimension from `sample`, whose vectors must
    /// have the same dimension, not 0, and finite components.
    pub fn train(sample: &[Vec<u32>]) -> (r: Result<ScalarQuantizer>)
        ensures
            ({
                let ok = sample@.len() > 0 && sample@[0]@.len() > 0 && sample_ok(
                    sample@,
                    sample@[0]@.len(),
                );
                match r {
                    Ok(q) => {
                        &&& ok
                        &&& q.wf()
                        &&& q.lo().len() == sample@[0]@.len()
                        &&& forall|d: int|
                            0 <= d < q.lo().len() ==> is_smallest(
                                sample@,
                                sample@.len() as int,
                                d,
                                #[trigger] q.lo()[d],
                            )
                        &&& forall|d: int|
                            0 <= d < q.lo().len() ==> is_largest(
                                sample@,
                                sample@.len() as int,
                                d,
                                #[trigger] q.hi()[d],
                            )
                    },
                    Err(e) => !ok && e is InvalidArgument,
                }
            }),
    {
        if sample.len() == 0 {
            return Err(invalid_argument("cannot train quantizer on empty sample"));
        }
        let dim = sample[0].len();
        if dim == 0 {
            return Err(invalid_argument("cannot train quantizer on zero-dimension vectors"));
        }
        if !check_finite(sample[0].as_slice()) {
            return Err(invalid_argument("training vector component is non-finite"));
        }
        let mut min: Vec<u32> = slice_to_vec(sample[0].as_slice());
        let mut max: Vec<u32> = slice_to_vec(sample[0].as_slice());
        let n = sample.len();
        let mut i: usize = 1;
        proof {
            assert forall|d: int| 0 <= d < dim implies is_smallest(
                sample@,
                1,
                d,
                #[trigger] min@[d],
            ) by {
                assert(sample@[0]@[d] == min@[d]);
            }
            assert forall|d: int| 0 <= d < dim implies is_largest(
                sample@,
                1,
                d,
                #[trigger] max@[d],
            ) by {
                assert(sample@[0]@[d] == max@[d]);
            }
        }
        while i < n
            invariant
                1 <= i <= n,
                n == sample@.len(),
                dim == sample@[0]@.len(),
                min@.len() == dim,
                max@.len() == dim,
                forall|j: int|
                    0 <= j < i ==> (#[trigger] sample@[j])@.len() == dim && float::all_finite(
                        sample@[j]@,
                    ),
                forall|d: int|
                    0 <= d < dim ==> is_smallest(sample@, i as int, d, #[trigger] min@[d]),
                forall|d: int|
                    0 <= d < dim ==> is_largest(sample@, i as int, d, #[trigger] max@[d]),
            decreases n - i,
        {
            let v = &sample[i];
            if v.len() != dim {
                assert(sample@[i as int]@.len() != dim);
                return Err(invalid_argument("training vector dimension mismatch"));
            }
            if !check_finite(v.as_slice()) {
                assert(!float::all_finite(sample@[i as int]@));
                return Err(invalid_argument("training vector component is non-finite"));
            }
            widen(sample, i, &mut min, &mut max);
            i = i + 1;
        }
        Ok(ScalarQuantizer { min, max })
    }

    /// The dimension that the quantizer was trained for.
    pub fn dim(&self) -> (n: usize)
        ensures
            n == self.lo().len(),
    {
        self.min.len()
    }

    /// One byte per component of `v`: `step` of the ends of the range and the
    /// component, or 0 where the range is a single value.
    pub fn quantize<Q: Fn(u32, u32, u32) -> u8>(&self, step: &Q, v: &[u32]) -> (r: Result<Vec<u8>>)
        requires
            self.wf(),
            forall|a: u32, b: u32, x: u32| #[trigger] call_requires(step, (a, b, x)),
        ensures
            match r {
                Ok(out) => {
                    &&& v@.len() == self.lo().len()
                    &&& out@.len() == v@.len()
                    &&& forall|d: int|
                        0 <= d < v@.len() ==> if self.is_flat(d) {
                            #[trigger] out@[d] == 0
                        } else {
                            call_ensures(step, (self.lo()[d], self.hi()[d], v@[d]), out@[d])
                        }
                    &&& forall|d: int|
                        0 <= d < v@.len() && float::rank(self.lo()[d]) == float::rank(
                            self.hi()[d],
                        ) ==> #[trigger] out@[d] == 0
                    &&& forall|d: int|
                        0 <= d < v@.len() && float::rank(self.lo()[d]) != float::rank(
                            self.hi()[d],
                        ) ==> call_ensures(
                            step,
                            (self.lo()[d], self.hi()[d], v@[d]),
                            #[trigger] out@[d],
                        )
                },
                Err(e) => v@.len() != self.lo().len() && e is InvalidArgument,
            },
    {
        if v.len() != self.min.len() {
            return Err(invalid_argument("quantize: dimension mismatch"));
        }
        let mut out: Vec<u8> = Vec::new();
        let n = v.len();
        for d in 0..n
            invariant
                n == v@.len(),
                n == self.min@.len(),
                n == self.max@.len(),
                out@.len() == d,
                forall|a: u32, b: u32, x: u32| #[trigger] call_requires(step, (a, b, x)),
                forall|j: int|
                    0 <= j < d ==> if self.is_flat(j) {
                        #[trigger] out@[j] == 0
                    } else {
                        call_ensures(step, (self.lo()[j], self.hi()[j], v@[j]), out@[j])
                    },
        {
            let a = self.min[d];
            let b = self.max[d];
            if !less(a, b) && !less(b, a) {
                out.push(0);
            } else {
                out.push(step(a, b, v[d]));
            }
        }
        Ok(out)
    }

    /// An approximation of what was quantized: `value` of the ends of the
    /// range and the byte, or the one value of the range.
    pub fn dequantize<V: Fn(u32, u32, u8) -> u32>(&self, value: &V, q: &[u8]) -> (r: Result<
        Vec<u32>,
    >)
        requires
            self.wf(),
            forall|a: u32, b: u32, x: u8| #[trigger] call_requires(value, (a, b, x)),
        ensures
            match r {
                Ok(out) => {
                    &&& q@.len() == self.lo().len()
                    &&& out@.len() == q@.len()
                    &&& forall|d: int|
                        0 <= d < q@.len() ==> if self.is_flat(d) {
                            #[trigger] out@[d] == self.lo()[d]
                        } else {
                            call_ensures(value, (self.lo()[d], self.hi()[d], q@[d]), out@[d])
                        }
                    &&& forall|d: int|
                        0 <= d < q@.len() && float::rank(self.lo()[d]) == float::rank(
                            self.hi()[d],
                        ) ==> #[trigger] out@[d] == self.lo()[d]
                    &&& forall|d: int|
                        0 <= d < q@.len() && float::rank(self.lo()[d]) != float::rank(
                            self.hi()[d],
                        ) ==> call_ensures(
                            value,
                            (self.lo()[d], self.hi()[d], q@[d]),
                            #[trigger] out@[d],
                        )
                },
                Err(e) => q@.len() != self.lo().len() && e is InvalidArgument,
            },
    {
        if q.len() != self.min.len() {
            return Err(invalid_argument("dequantize: dimension mismatch"));
        }
        let mut out: Vec<u32> = Vec::new();
        let n = q.len();
        for d in 0..n
            invariant
                n == q@.len(),
                n == self.min@.len(),
                n == self.max@.len(),
                out@.len() == d,
                forall|a: u32, b: u32, x: u8| #[trigger] call_requires(value, (a, b, x)),
                forall|j: int|
                    0 <= j < d ==> if self.is_flat(j) {
                        #[trigger] out@[j] == self.lo()[j]
                    } else {
                        call_ensures(value, (self.lo()[j], self.hi()[j], q@[j]), out@[j])
                    },
        {
            let a = self.min[d];
            let b = self.max[d];
            if !less(a, b) && !less(b, a) {
                out.push(a);
            } else {
                out.push(value(a, b, q[d]));
            }
        }
        Ok(out)
    }

    /// Quantizes `v` and takes it back.
    pub fn round_trip<Q: Fn(u32, u32, u32) -> u8, V: Fn(u32, u32, u8) -> u32>(
        &self,
        step: &Q,
        value: &V,
        v: &[u32],
    ) -> (r: Result<Vec<u32>>)
        requires
            self.wf(),
            forall|a: u32, b: u32, x: u32| #[trigger] call_requires(step, (a, b, x)),
            forall|a: u32, b: u32, x: u8| #[trigger] call_requires(value, (a, b, x)),
        ensures
            match r {
                Ok(out) => {
                    &&& v@.len() == self.lo().len()
                    &&& out@.len() == v@.len()
                    &&& forall|d: int|
                        0 <= d < v@.len() ==> self.comes_back(
                            step,
                            value,
                            d,
                            v@[d],
                            #[trigger] out@[d],
                        )
                    &&& forall|d: int|
                        0 <= d < v@.len() && float::rank(self.lo()[d]) == float::rank(
                            self.hi()[d],
                        ) ==> #[trigger] out@[d] == self.lo()[d]
                    &&& forall|d: int|
                        0 <= d < v@.len() && float::rank(self.lo()[d]) != float::rank(
                            self.hi()[d],
                        ) ==> goes_through(
                            step,
                            value,
                            self.lo()[d],
                            self.hi()[d],
                            v@[d],
                            #[trigger] out@[d],
                        )
                },
                Err(e) => v@.len() != self.lo().len() && e is InvalidArgument,
            },
    {
        let q = match self.quantize(step, v) {
            Ok(q) => q,
            Err(e) => {
                return Err(e);
            },
        };
        let r = self.dequantize(value, q.as_slice());
        proof {
            if let Ok(ref out) = r {
                assert forall|d: int|
                    0 <= d < v@.len() && float::rank(self.lo()[d]) != float::rank(
                        self.hi()[d],
                    ) implies goes_through(
                    step,
                    value,
                    self.lo()[d],
                    self.hi()[d],
                    v@[d],
                    #[trigger] out@[d],
                ) by {
                    let b = q@[d];
                    assert(call_ensures(step, (self.lo()[d], self.hi()[d], v@[d]), b));
                    assert(call_ensures(value, (self.lo()[d], self.hi()[d], b), out@[d]));
                }
                assert forall|d: int| 0 <= d < v@.len() implies self.comes_back(
                    step,
                    value,
                    d,
                    v@[d],
                    #[trigger] out@[d],
                ) by {
                    let b = q@[d];
                    assert(self.is_flat(d) || call_ensures(
                        value,
                        (self.lo()[d], self.hi()[d], b),
                        out@[d],
                    ));
                }
            }
        }
        r
    }
}

/// Widens the ranges so that they hold vector `i` too.
fn widen(sample: &[Vec<u32>], i: usize, min: &mut Vec<u32>, max: &mut Vec<u32>)
    requires
        i < sample@.len(),
        old(min)@.len() == old(max)@.len() == sample@[i as int]@.len(),
        forall|d: int|
            0 <= d < old(min)@.len() ==> is_smallest(
                sample@,
                i as int,
                d,
                #[trigger] old(min)@[d],
            ),
        forall|d: int|
            0 <= d < old(max)@.len() ==> is_largest(sample@, i as int, d, #[trigger] old(max)@[d]),
    ensures
        final(min)@.len() == final(max)@.len() == old(min)@.len(),
        forall|d: int|
            0 <= d < final(min)@.len() ==> is_smallest(
                sample@,
                i + 1,
                d,
                #[trigger] final(min)@[d],
            ),
        forall|d: int|
            0 <= d < final(max)@.len() ==> is_largest(sample@, i + 1, d, #[trigger] final(max)@[d]),
{
    let ghost min0 = min@;
    let ghost max0 = max@;
    let ghost v = sample@[i as int]@;
    let dim = min.len();
    for d in 0..dim
        invariant
            i < sample@.len(),
            v == sample@[i as int]@,
            dim == v.len(),
            min@.len() == max@.len() == min0.len() == max0.len() == dim,
            forall|j: int| d <= j < dim ==> #[trigger] min@[j] == min0[j],
            forall|j: int| d <= j < dim ==> #[trigger] max@[j] == max0[j],
            forall|j: int| 0 <= j < dim ==> is_smallest(sample@, i as int, j, #[trigger] min0[j]),
            forall|j: int| 0 <= j < dim ==> is_largest(sample@, i as int, j, #[trigger] max0[j]),
            forall|j: int| 0 <= j < d ==> is_smallest(sample@, i + 1, j, #[trigger] min@[j]),
            forall|j: int| 0 <= j < d ==> is_largest(sample@, i + 1, j, #[trigger] max@[j]),
    {
        let x = sample[i][d];
        assert(is_smallest(sample@, i as int, d as int, min0[d as int]));
        assert(is_largest(sample@, i as int, d as int, max0[d as int]));
        assert(sample@[i as int]@[d as int] == x);
        assert(min@[d as int] == min0[d as int]);
        assert(max@[d as int] == max0[d as int]);
        if less(x, min[d]) {
            min[d] = x;
        }
        if less(max[d], x) {
            max[d] = x;
        }
        proof {
            lemma_smallest_step(sample@, i as int, d as int, min0[d as int], min@[d as int]);
            lemma_largest_step(sample@, i as int, d as int, max0[d as int], max@[d as int]);
        }
    }
}

proof fn lemma_smallest_step(sample: Seq<Vec<u32>>, n: int, d: int, lo: u32, next: u32)
    requires
        0 <= n < sample.len(),
        is_smallest(sample, n, d, lo),
        next == (if float::rank(sample[n]@[d]) < float::rank(lo) {
            sample[n]@[d]
        } else {
            lo
        }),
    ensures
        is_smallest(sample, n + 1, d, next),
{
    if next == lo {
        let i = choose|i: int| 0 <= i < n && (#[trigger] sample[i])@[d] == lo;
        assert(sample[i]@[d] == next);
    } else {
        assert(sample[n]@[d] == next);
    }
}

proof fn lemma_largest_step(sample: Seq<Vec<u32>>, n: int, d: int, hi: u32, next: u32)
    requires
        0 <= n < sample.len(),
        is_largest(sample, n, d, hi),
        next == (if float::rank(hi) < float::rank(sample[n]@[d]) {
            sample[n]@[d]
        } else {
            hi
        }),
    ensures
        is_largest(sample, n + 1, d, next),
{
    if next == hi {
        let i = choose|i: int| 0 <= i < n && (#[trigger] sample[i])@[d] == hi;
        assert(sample[i]@[d] == next);
    } else {
        assert(sample[n]@[d] == next);
    }
}

} // verus!
