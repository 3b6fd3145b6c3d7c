//! Min/max decimation seeded with the finite extremes: each bin starts from
//! `(f32::MAX, f32::MIN)` and keeps whatever the scan leaves there, so a bin
//! without any number keeps its seed.

use vstd::prelude::*;

use crate::float_bits::{f32_is_nan, f32_lt, lt_bits, F32_LOWEST, F32_MAX};
use crate::simd::lemma_rank_bounds;
use crate::arith::lemma_chunk_index;
use crate::parallel::par_summarize_seeded;
use crate::simd::{chunk_of, num_chunks, MinMaxPair};

verus! {

/// Left-to-right scan that starts at `f32::MAX` and keeps a value only when
/// it is strictly smaller than the running one (NaN never is).
pub open spec fn seeded_min(s: Seq<u32>) -> u32
    decreases s.len(),
{
    if s.len() == 0 {
        F32_MAX
    } else {
        let m = seeded_min(s.drop_last());
        if f32_lt(s.last(), m) {
            s.last()
        } else {
            m
        }
    }
}

/// Left-to-right scan that starts at `f32::MIN` and keeps a value only when
/// it is strictly larger than the running one.
pub open spec fn seeded_max(s: Seq<u32>) -> u32
    decreases s.len(),
{
    if s.len() == 0 {
        F32_LOWEST
    } else {
        let m = seeded_max(s.drop_last());
        if f32_lt(m, s.last()) {
            s.last()
        } else {
            m
        }
    }
}

/// Seeded summary of one bin.
pub open spec fn seeded_summary(s: Seq<u32>) -> MinMaxPair {
    MinMaxPair { min: seeded_min(s), max: seeded_max(s) }
}

/// One seeded summary per bin of `b` samples.
pub open spec fn decimate_seeded(s: Seq<u32>, b: nat) -> Seq<MinMaxPair> {
    Seq::new(num_chunks(s.len(), b), |i: int| seeded_summary(chunk_of(s, b, i)))
}

/// Seeded summary of one bin of samples.
pub fn summarize_seeded(chunk: &[u32]) -> (r: MinMaxPair)
    ensures
        r == seeded_summary(chunk@),
        forall|i: int|
            0 <= i < chunk@.len() && !f32_is_nan(#[trigger] chunk@[i]) ==> !f32_lt(chunk@[i], r.min)
                && !f32_lt(r.max, chunk@[i]),
{
    proof {
        lemma_seeded_bounds(chunk@);
    }
    let n = chunk.len();
    let mut min_val = F32_MAX;
    let mut max_val = F32_LOWEST;
    let mut i: usize = 0;
    while i < n
        invariant
            n == chunk@.len(),
            i <= n,
            min_val == seeded_min(chunk@.take(i as int)),
            max_val == seeded_max(chunk@.take(i as int)),
        decreases n - i,
    {
        let val = chunk[i];
        assert(chunk@.take(i + 1).drop_last() =~= chunk@.take(i as int));
        if lt_bits(val, min_val) {
            min_val = val;
        }
        if lt_bits(max_val, val) {
            max_val = val;
        }
        i = i + 1;
    }
    assert(chunk@.take(n as int) =~= chunk@);
    MinMaxPair { min: min_val, max: max_val }
}

/// Decimates raw samples into one min/max pair per bin of `bin_size`
/// samples, each bin scanned from `(f32::MAX, f32::MIN)`; the bins are
/// summarised in parallel. The bin size must not be zero.
pub fn reduce_min_max_chunk(data: &[u32], bin_size: usize) -> (r: Vec<MinMaxPair>)
    requires
        bin_size > 0,
    ensures
        r@ == decimate_seeded(data@, bin_size as nat),
        r@.len() * bin_size >= data@.len(),
        forall|j: int|
            0 <= j < data@.len() && !f32_is_nan(#[trigger] data@[j]) ==> {
                let p = r@[j / (bin_size as int)];
                !f32_lt(data@[j], p.min) && !f32_lt(p.max, data@[j])
            },
{
    let r = par_summarize_seeded(data, bin_size);
    proof {
        lemma_chunk_index(data@.len(), bin_size as nat, r@.len() as int);
        assert forall|j: int| 0 <= j < data@.len() && !f32_is_nan(#[trigger] data@[j]) implies {
            let p = r@[j / (bin_size as int)];
            !f32_lt(data@[j], p.min) && !f32_lt(p.max, data@[j])
        } by {
            lemma_seeded_envelope(data@, bin_size as nat, j);
        }
    }
    r
}

/// The seeded scan bounds every number of its bin: the minimum is not above
/// any number of the bin and the maximum not below any, and neither is NaN.
pub proof fn lemma_seeded_bounds(s: Seq<u32>)
    ensures
        !f32_is_nan(seeded_min(s)),
        !f32_is_nan(seeded_max(s)),
        forall|i: int|
            0 <= i < s.len() && !f32_is_nan(#[trigger] s[i]) ==> !f32_lt(s[i], seeded_min(s))
                && !f32_lt(seeded_max(s), s[i]),
    decreases s.len(),
{
    lemma_rank_bounds(F32_MAX);
    lemma_rank_bounds(F32_LOWEST);
    if s.len() > 0 {
        let init = s.drop_last();
        lemma_seeded_bounds(init);
        lemma_rank_bounds(s.last());
        lemma_rank_bounds(seeded_min(init));
        lemma_rank_bounds(seeded_max(init));
        assert forall|i: int| 0 <= i < s.len() && !f32_is_nan(#[trigger] s[i]) implies !f32_lt(
            s[i],
            seeded_min(s),
        ) && !f32_lt(seeded_max(s), s[i]) by {
            if i < s.len() - 1 {
                assert(init[i] == s[i]);
            }
        }
    }
}

/// Every number of the samples lies within the seeded pair of its bin:
/// sample `j` is covered by pair `j / b`, which is not above it in its
/// minimum and not below it in its maximum.
pub proof fn lemma_seeded_envelope(s: Seq<u32>, b: nat, j: int)
    requires
        b > 0,
        0 <= j < s.len(),
        !f32_is_nan(s[j]),
    ensures
        0 <= j / (b as int) < decimate_seeded(s, b).len(),
        !f32_lt(s[j], decimate_seeded(s, b)[j / (b as int)].min),
        !f32_lt(decimate_seeded(s, b)[j / (b as int)].max, s[j]),
{
    let i = j / (b as int);
    vstd::arithmetic::div_mod::lemma_fundamental_div_mod(j, b as int);
    vstd::arithmetic::div_mod::lemma_mod_bound(j, b as int);
    vstd::arithmetic::div_mod::lemma_div_pos_is_pos(j, b as int);
    vstd::arithmetic::mul::lemma_mul_is_commutative(b as int, i);
    lemma_chunk_index(s.len(), b, i);
    assert((i + 1) * b == i * b + b) by (nonlinear_arith);
    let chunk = chunk_of(s, b, i);
    assert(0 <= j - i * b < chunk.len());
    assert(chunk[j - i * b] == s[j]);
    lemma_seeded_bounds(chunk);
}

} // verus!
