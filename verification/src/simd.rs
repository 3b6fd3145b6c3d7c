//! Min/max decimation: a series of samples becomes one `(min, max)` pair per
//! bin of consecutive samples, and pairs are reduced again the same way for
//! the upper levels of the pyramid.

use vstd::prelude::*;

use crate::float_bits::{
    eq_bits, f32_eq, f32_is_nan, f32_lt, f32_rank, is_nan_bits, lt_bits, F32_LOWEST, F32_MAX, F32_NEG_INF,
    F32_POS_INF, F32_ZERO,
};
use crate::parallel::{par_summarize_pairs, par_summarize_samples};

verus! {

/// Range of the values seen in one horizontal bin, as the bit patterns of
/// two `f32` values.
#[derive(Debug, Clone, Copy)]
pub struct MinMaxPair {
    pub min: u32,
    pub max: u32,
}

impl PartialEq for MinMaxPair {
    /// Field-wise IEEE-754 equality, as for two `f32` fields.
    fn eq(&self, other: &Self) -> (r: bool) {
        eq_bits(self.min, other.min) && eq_bits(self.max, other.max)
    }
}

impl vstd::std_specs::cmp::PartialEqSpecImpl for MinMaxPair {
    open spec fn obeys_eq_spec() -> bool {
        true
    }

    open spec fn eq_spec(&self, other: &Self) -> bool {
        f32_eq(self.min, other.min) && f32_eq(self.max, other.max)
    }
}

/// `min` of two values in the manner of `f32::min`: a NaN operand is
/// ignored, and of two equal values (such as `+0.0` and `-0.0`) the first
/// is kept.
pub open spec fn f32_min_num(a: u32, b: u32) -> u32 {
    if f32_is_nan(a) {
        b
    } else if f32_is_nan(b) {
        a
    } else if f32_lt(b, a) {
        b
    } else {
        a
    }
}

/// `max` of two values in the manner of `f32::max`: a NaN operand is
/// ignored, and of two equal values (such as `+0.0` and `-0.0`) the first
/// is kept.
pub open spec fn f32_max_num(a: u32, b: u32) -> u32 {
    if f32_is_nan(a) {
        b
    } else if f32_is_nan(b) {
        a
    } else if f32_lt(a, b) {
        b
    } else {
        a
    }
}

impl MinMaxPair {
    /// A pair made of the given bounds.
    pub fn new(min: u32, max: u32) -> (r: Self)
        ensures
            r.min == min,
            r.max == max,
    {
        Self { min, max }
    }

    /// The neutral pair `(f32::MAX, f32::MIN)`.
    pub fn identity() -> (r: Self)
        ensures
            r.min == F32_MAX,
            r.max == F32_LOWEST,
    {
        Self { min: F32_MAX, max: F32_LOWEST }
    }

    /// The pair covering both ranges.
    pub fn combine(&self, other: &Self) -> (r: Self)
        ensures
            r.min == f32_min_num(self.min, other.min),
            r.max == f32_max_num(self.max, other.max),
    {
        let min = if is_nan_bits(self.min) {
            other.min
        } else if is_nan_bits(other.min) {
            self.min
        } else if lt_bits(other.min, self.min) {
            other.min
        } else {
            self.min
        };
        let max = if is_nan_bits(self.max) {
            other.max
        } else if is_nan_bits(other.max) {
            self.max
        } else if lt_bits(self.max, other.max) {
            other.max
        } else {
            self.max
        };
        Self { min, max }
    }
}

/// Smallest value of `s` met in a left-to-right scan that starts at `+inf`
/// and replaces the running value only by a strictly smaller one (NaN never
/// compares smaller).
pub open spec fn fold_min(s: Seq<u32>) -> u32
    decreases s.len(),
{
    if s.len() == 0 {
        F32_POS_INF
    } else {
        let m = fold_min(s.drop_last());
        if f32_lt(s.last(), m) {
            s.last()
        } else {
            m
        }
    }
}

/// Largest value of `s` met in a left-to-right scan that starts at `-inf`
/// and replaces the running value only by a strictly larger one.
pub open spec fn fold_max(s: Seq<u32>) -> u32
    decreases s.len(),
{
    if s.len() == 0 {
        F32_NEG_INF
    } else {
        let m = fold_max(s.drop_last());
        if f32_lt(m, s.last()) {
            s.last()
        } else {
            m
        }
    }
}

/// `s` holds at least one value that is not NaN.
pub open spec fn has_number(s: Seq<u32>) -> bool {
    exists|i: int| 0 <= i < s.len() && !f32_is_nan(#[trigger] s[i])
}

/// Summary of one bin of samples: its extreme values, or `(0.0, 0.0)` when
/// the bin holds nothing but NaN.
pub open spec fn sample_summary(s: Seq<u32>) -> MinMaxPair {
    if has_number(s) {
        MinMaxPair { min: fold_min(s), max: fold_max(s) }
    } else {
        MinMaxPair { min: F32_ZERO, max: F32_ZERO }
    }
}

/// A pair takes part in a reduction only when neither bound is NaN.
pub open spec fn pair_is_valid(p: MinMaxPair) -> bool {
    !f32_is_nan(p.min) && !f32_is_nan(p.max)
}

/// Smallest lower bound among the valid pairs of `ps`, scanned left to right from `+inf`.
pub open spec fn pairs_fold_min(ps: Seq<MinMaxPair>) -> u32
    decreases ps.len(),
{
    if ps.len() == 0 {
        F32_POS_INF
    } else {
        let m = pairs_fold_min(ps.drop_last());
        let p = ps.last();
        if pair_is_valid(p) && f32_lt(p.min, m) {
            p.min
        } else {
            m
        }
    }
}

/// Largest upper bound among the valid pairs of `ps`, scanned left to right from `-inf`.
pub open spec fn pairs_fold_max(ps: Seq<MinMaxPair>) -> u32
    decreases ps.len(),
{
    if ps.len() == 0 {
        F32_NEG_INF
    } else {
        let m = pairs_fold_max(ps.drop_last());
        let p = ps.last();
        if pair_is_valid(p) && f32_lt(m, p.max) {
            p.max
        } else {
            m
        }
    }
}

/// `ps` holds at least one valid pair.
pub open spec fn has_valid_pair(ps: Seq<MinMaxPair>) -> bool {
    exists|i: int| 0 <= i < ps.len() && pair_is_valid(#[trigger] ps[i])
}

/// Summary of one bin of pairs, or `(0.0, 0.0)` when no pair of the bin is valid.
pub open spec fn pair_summary(ps: Seq<MinMaxPair>) -> MinMaxPair {
    if has_valid_pair(ps) {
        MinMaxPair { min: pairs_fold_min(ps), max: pairs_fold_max(ps) }
    } else {
        MinMaxPair { min: F32_ZERO, max: F32_ZERO }
    }
}

/// Number of bins of `b` items needed to cover `n` items (the last bin may be shorter).
pub open spec fn num_chunks(n: nat, b: nat) -> nat {
    if b == 0 {
        0
    } else {
        ((n + b - 1) / b as int) as nat
    }
}

/// No bin is needed to cover nothing.
pub proof fn lemma_num_chunks_of_empty(b: nat)
    ensures
        num_chunks(0, b) == 0,
{
    if b > 0 {
        vstd::arithmetic::div_mod::lemma_basic_div(b - 1, b as int);
    }
}

/// Bin `i` of `s` for bins of `b` items: items `i*b .. min((i+1)*b, len)`.
pub open spec fn chunk_of<T>(s: Seq<T>, b: nat, i: int) -> Seq<T> {
    let end = if (i + 1) * b <= s.len() {
        (i + 1) * b
    } else {
        s.len() as int
    };
    s.subrange(i * b, end)
}

/// One summary per bin of `b` samples.
pub open spec fn decimate_samples(s: Seq<u32>, b: nat) -> Seq<MinMaxPair> {
    Seq::new(num_chunks(s.len(), b), |i: int| sample_summary(chunk_of(s, b, i)))
}

/// One summary per bin of `b` pairs.
pub open spec fn decimate_pairs(ps: Seq<MinMaxPair>, b: nat) -> Seq<MinMaxPair> {
    Seq::new(num_chunks(ps.len(), b), |i: int| pair_summary(chunk_of(ps, b, i)))
}

/// Summary of one bin of samples.
pub fn summarize_samples(chunk: &[u32]) -> (r: MinMaxPair)
    ensures
        r == sample_summary(chunk@),
{
    let n = chunk.len();
    let mut min_val = F32_POS_INF;
    let mut max_val = F32_NEG_INF;
    let mut found = false;
    let mut i: usize = 0;
    while i < n
        invariant
            n == chunk@.len(),
            i <= n,
            min_val == fold_min(chunk@.take(i as int)),
            max_val == fold_max(chunk@.take(i as int)),
            found == has_number(chunk@.take(i as int)),
        decreases n - i,
    {
        let val = chunk[i];
        let ghost prefix = chunk@.take(i as int);
        let ghost next = chunk@.take(i + 1);
        assert(next.drop_last() =~= prefix);
        assert(next.last() == val);
        if !is_nan_bits(val) {
            found = true;
            if lt_bits(val, min_val) {
                min_val = val;
            }
            if lt_bits(max_val, val) {
                max_val = val;
            }
            assert(next[i as int] == val);
        } else {
            assert(has_number(next) ==> has_number(prefix)) by {
                if has_number(next) {
                    let j = choose|j: int| 0 <= j < next.len() && !f32_is_nan(#[trigger] next[j]);
                    assert(prefix[j] == next[j]);
                }
            }
        }
        assert(has_number(prefix) ==> has_number(next)) by {
            if has_number(prefix) {
                let j = choose|j: int| 0 <= j < prefix.len() && !f32_is_nan(#[trigger] prefix[j]);
                assert(next[j] == prefix[j]);
            }
        }
        i = i + 1;
    }
    assert(chunk@.take(n as int) =~= chunk@);
    if found {
        MinMaxPair { min: min_val, max: max_val }
    } else {
        MinMaxPair { min: F32_ZERO, max: F32_ZERO }
    }
}

/// Summary of one bin of pairs.
pub fn summarize_pairs(chunk: &[MinMaxPair]) -> (r: MinMaxPair)
    ensures
        r == pair_summary(chunk@),
{
    let n = chunk.len();
    let mut min_val = F32_POS_INF;
    let mut max_val = F32_NEG_INF;
    let mut found = false;
    let mut i: usize = 0;
    while i < n
        invariant
            n == chunk@.len(),
            i <= n,
            min_val == pairs_fold_min(chunk@.take(i as int)),
            max_val == pairs_fold_max(chunk@.take(i as int)),
            found == has_valid_pair(chunk@.take(i as int)),
        decreases n - i,
    {
        let pair = chunk[i];
        let ghost prefix = chunk@.take(i as int);
        let ghost next = chunk@.take(i + 1);
        assert(next.drop_last() =~= prefix);
        assert(next.last() == pair);
        if !(is_nan_bits(pair.min) || is_nan_bits(pair.max)) {
            found = true;
            if lt_bits(pair.min, min_val) {
                min_val = pair.min;
            }
            if lt_bits(max_val, pair.max) {
                max_val = pair.max;
            }
            assert(next[i as int] == pair);
        } else {
            assert(has_valid_pair(next) ==> has_valid_pair(prefix)) by {
                if has_valid_pair(next) {
                    let j = choose|j: int| 0 <= j < next.len() && pair_is_valid(#[trigger] next[j]);
                    assert(prefix[j] == next[j]);
                }
            }
        }
        assert(has_valid_pair(prefix) ==> has_valid_pair(next)) by {
            if has_valid_pair(prefix) {
                let j = choose|j: int| 0 <= j < prefix.len() && pair_is_valid(#[trigger] prefix[j]);
                assert(next[j] == prefix[j]);
            }
        }
        i = i + 1;
    }
    assert(chunk@.take(n as int) =~= chunk@);
    if found {
        MinMaxPair { min: min_val, max: max_val }
    } else {
        MinMaxPair { min: F32_ZERO, max: F32_ZERO }
    }
}

/// Decimates raw samples into one min/max pair per bin of `bin_size`
/// samples; the bins are summarised in parallel.
///
/// Empty input or a zero bin size give an empty result.
pub fn reduce_min_max_chunk(data: &[u32], bin_size: usize) -> (r: Vec<MinMaxPair>)
    ensures
        r@ == decimate_samples(data@, bin_size as nat),
{
    if data.len() == 0 || bin_size == 0 {
        proof {
            lemma_num_chunks_of_empty(bin_size as nat);
        }
        assert(decimate_samples(data@, bin_size as nat) =~= Seq::<MinMaxPair>::empty());
        return Vec::new();
    }
    par_summarize_samples(data, bin_size)
}

/// Decimates existing pairs into one pair per bin of `bin_size` pairs,
/// ignoring pairs with a NaN bound; used for the upper levels of the pyramid.
///
/// Empty input or a zero bin size give an empty result.
pub fn reduce_min_max_pairs(pairs: &[MinMaxPair], bin_size: usize) -> (r: Vec<MinMaxPair>)
    ensures
        r@ == decimate_pairs(pairs@, bin_size as nat),
{
    if pairs.len() == 0 || bin_size == 0 {
        proof {
            lemma_num_chunks_of_empty(bin_size as nat);
        }
        assert(decimate_pairs(pairs@, bin_size as nat) =~= Seq::<MinMaxPair>::empty());
        return Vec::new();
    }
    par_summarize_pairs(pairs, bin_size)
}

/// Every value that is not NaN lies between `-inf` and `+inf`, and only the
/// infinities themselves reach those ranks.
pub proof fn lemma_rank_bounds(x: u32)
    ensures
        !f32_is_nan(x) ==> f32_rank(F32_NEG_INF) <= f32_rank(x) <= f32_rank(F32_POS_INF),
        !f32_is_nan(x) && f32_rank(x) == f32_rank(F32_POS_INF) ==> x == F32_POS_INF,
        !f32_is_nan(x) && f32_rank(x) == f32_rank(F32_NEG_INF) ==> x == F32_NEG_INF,
        !f32_is_nan(F32_POS_INF) && !f32_is_nan(F32_NEG_INF),
{
}

/// The running minimum is never NaN, is not above any number of the
/// sequence, is `+inf` when there is no number, and is one of the numbers
/// otherwise.
pub(crate) proof fn lemma_fold_min(s: Seq<u32>)
    ensures
        !f32_is_nan(fold_min(s)),
        forall|i: int| 0 <= i < s.len() ==> !f32_lt(#[trigger] s[i], fold_min(s)),
        !has_number(s) ==> fold_min(s) == F32_POS_INF,
        has_number(s) ==> (exists|i: int|
            0 <= i < s.len() && !f32_is_nan(s[i]) && #[trigger] s[i] == fold_min(s)),
    decreases s.len(),
{
    lemma_rank_bounds(F32_POS_INF);
    if s.len() > 0 {
        let init = s.drop_last();
        let x = s.last();
        lemma_fold_min(init);
        lemma_rank_bounds(x);
        let m = fold_min(init);
        assert forall|i: int| 0 <= i < s.len() implies !f32_lt(#[trigger] s[i], fold_min(s)) by {
            if i < s.len() - 1 {
                assert(init[i] == s[i]);
            }
        }
        if !has_number(s) {
            assert(!has_number(init)) by {
                if has_number(init) {
                    let j = choose|j: int| 0 <= j < init.len() && !f32_is_nan(#[trigger] init[j]);
                    assert(s[j] == init[j]);
                }
            }
            assert(f32_is_nan(s[s.len() - 1]));
        } else {
            if f32_lt(x, m) {
                assert(s[s.len() - 1] == x);
            } else if has_number(init) {
                let j = choose|j: int| 0 <= j < init.len() && !f32_is_nan(init[j]) && #[trigger] init[j] == m;
                assert(s[j] == init[j]);
            } else {
                let j = choose|j: int| 0 <= j < s.len() && !f32_is_nan(#[trigger] s[j]);
                if j < s.len() - 1 {
                    assert(init[j] == s[j]);
                }
                assert(s[s.len() - 1] == x);
            }
        }
        if has_number(init) {
            let j = choose|j: int| 0 <= j < init.len() && !f32_is_nan(#[trigger] init[j]);
            assert(s[j] == init[j]);
        }
    }
}

/// The running maximum is never NaN, is not below any number of the
/// sequence, is `-inf` when there is no number, and is one of the numbers
/// otherwise.
pub(crate) proof fn lemma_fold_max(s: Seq<u32>)
    ensures
        !f32_is_nan(fold_max(s)),
        forall|i: int| 0 <= i < s.len() ==> !f32_lt(fold_max(s), #[trigger] s[i]),
        !has_number(s) ==> fold_max(s) == F32_NEG_INF,
        has_number(s) ==> (exists|i: int|
            0 <= i < s.len() && !f32_is_nan(s[i]) && #[trigger] s[i] == fold_max(s)),
    decreases s.len(),
{
    lemma_rank_bounds(F32_NEG_INF);
    if s.len() > 0 {
        let init = s.drop_last();
        let x = s.last();
        lemma_fold_max(init);
        lemma_rank_bounds(x);
        let m = fold_max(init);
        assert forall|i: int| 0 <= i < s.len() implies !f32_lt(fold_max(s), #[trigger] s[i]) by {
            if i < s.len() - 1 {
                assert(init[i] == s[i]);
            }
        }
        if !has_number(s) {
            assert(!has_number(init)) by {
                if has_number(init) {
                    let j = choose|j: int| 0 <= j < init.len() && !f32_is_nan(#[trigger] init[j]);
                    assert(s[j] == init[j]);
                }
            }
            assert(f32_is_nan(s[s.len() - 1]));
        } else {
            if f32_lt(m, x) {
                assert(s[s.len() - 1] == x);
            } else if has_number(init) {
                let j = choose|j: int| 0 <= j < init.len() && !f32_is_nan(init[j]) && #[trigger] init[j] == m;
                assert(s[j] == init[j]);
            } else {
                let j = choose|j: int| 0 <= j < s.len() && !f32_is_nan(#[trigger] s[j]);
                if j < s.len() - 1 {
                    assert(init[j] == s[j]);
                }
                assert(s[s.len() - 1] == x);
            }
        }
        if has_number(init) {
            let j = choose|j: int| 0 <= j < init.len() && !f32_is_nan(#[trigger] init[j]);
            assert(s[j] == init[j]);
        }
    }
}

/// A bin summary bounds its bin: when the bin holds a number, `min` and
/// `max` are numbers of the bin and every number of the bin lies between
/// them (`min <= x <= max` in `f32` order); a bin of NaN alone is summarised
/// as `(0.0, 0.0)`.
pub proof fn lemma_sample_summary_bounds(s: Seq<u32>)
    ensures
        has_number(s) ==> {
            let p = sample_summary(s);
            &&& exists|i: int| 0 <= i < s.len() && !f32_is_nan(s[i]) && #[trigger] s[i] == p.min
            &&& exists|i: int| 0 <= i < s.len() && !f32_is_nan(s[i]) && #[trigger] s[i] == p.max
            &&& forall|i: int|
                0 <= i < s.len() && !f32_is_nan(#[trigger] s[i]) ==> !f32_lt(s[i], p.min)
                    && !f32_lt(p.max, s[i])
        },
        !has_number(s) ==> sample_summary(s) == (MinMaxPair { min: F32_ZERO, max: F32_ZERO }),
{
    lemma_fold_min(s);
    lemma_fold_max(s);
}

} // verus!
