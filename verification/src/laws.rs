//! Laws of the decimation: reducing the summaries of fine bins gives the
//! summaries of the coarse bins, so every level of the pyramid summarises
//! the raw samples directly.

use vstd::prelude::*;

use vstd::arithmetic::power::{lemma_pow1, lemma_pow_adds, lemma_pow_positive, pow};

use crate::arith::lemma_chunk_index;
use crate::builder::{hier_levels, levels_built};
use crate::pyramid::{
    dyadic_le, effective_oversampling, f32_exp2, f32_mant, lemma_scaled_visible, lemma_target_parts,
    lod_steps, optimal_lod, range_of_pairs, scaled_visible, LodLevel,
};
use vstd::arithmetic::power2::{lemma_pow2_adds, pow2};
use crate::float_bits::{f32_exponent, f32_fraction, f32_is_nan, f32_lt};
use crate::simd::{
    chunk_of, decimate_pairs, f32_max_num, f32_min_num, decimate_samples, fold_max, fold_min, has_number, has_valid_pair,
    lemma_fold_max, lemma_fold_min, lemma_rank_bounds, num_chunks, pair_is_valid, pair_summary,
    pairs_fold_max, pairs_fold_min, sample_summary, MinMaxPair,
};
use crate::float_bits::{f32_is_finite, F32_LOWEST, F32_MAX, F32_NEG_INF, F32_NEG_ONE, F32_ONE, F32_POS_INF};

verus! {

/// Every bin of `b` samples of `s` holds at least one number.
pub open spec fn all_bins_numbered(s: Seq<u32>, b: nat) -> bool {
    forall|i: int| 0 <= i < num_chunks(s.len(), b) ==> has_number(#[trigger] chunk_of(s, b, i))
}

/// The smaller of two running minima, the first on ties.
pub open spec fn combine_min(a: u32, b: u32) -> u32 {
    if f32_lt(b, a) { b } else { a }
}

/// The larger of two running maxima, the first on ties.
pub open spec fn combine_max(a: u32, b: u32) -> u32 {
    if f32_lt(a, b) { b } else { a }
}

/// The minimum of a concatenation combines the minima of its parts.
proof fn lemma_fold_min_concat(s1: Seq<u32>, s2: Seq<u32>)
    ensures
        fold_min(s1 + s2) == combine_min(fold_min(s1), fold_min(s2)),
    decreases s2.len(),
{
    lemma_fold_min(s1);
    lemma_fold_min(s2);
    lemma_rank_bounds(fold_min(s1));
    lemma_rank_bounds(F32_POS_INF);
    if s2.len() == 0 {
        assert(s1 + s2 =~= s1);
    } else {
        let init = s2.drop_last();
        lemma_fold_min_concat(s1, init);
        lemma_fold_min(init);
        assert((s1 + s2).drop_last() =~= s1 + init);
        assert((s1 + s2).last() == s2.last());
    }
}

/// The maximum of a concatenation combines the maxima of its parts.
proof fn lemma_fold_max_concat(s1: Seq<u32>, s2: Seq<u32>)
    ensures
        fold_max(s1 + s2) == combine_max(fold_max(s1), fold_max(s2)),
    decreases s2.len(),
{
    lemma_fold_max(s1);
    lemma_fold_max(s2);
    lemma_rank_bounds(fold_max(s1));
    lemma_rank_bounds(F32_NEG_INF);
    if s2.len() == 0 {
        assert(s1 + s2 =~= s1);
    } else {
        let init = s2.drop_last();
        lemma_fold_max_concat(s1, init);
        lemma_fold_max(init);
        assert((s1 + s2).drop_last() =~= s1 + init);
        assert((s1 + s2).last() == s2.last());
    }
}

/// End of bin `i` for bins of `b` items over `n` items.
pub open spec fn bin_end(n: nat, b: nat, i: int) -> int {
    if i * b <= n { i * b } else { n as int }
}

/// The valid pairs `lo .. hi` of the level-0 summaries reduce to the summary
/// of the samples they cover.
proof fn lemma_pairs_fold_run(s: Seq<u32>, b: nat, lo: int, hi: int)
    requires
        b > 0,
        all_bins_numbered(s, b),
        0 <= lo <= hi <= num_chunks(s.len(), b),
        lo < hi ==> lo < num_chunks(s.len(), b),
    ensures
        pairs_fold_min(decimate_samples(s, b).subrange(lo, hi)) == fold_min(
            s.subrange(bin_end(s.len(), b, lo), bin_end(s.len(), b, hi)),
        ),
        pairs_fold_max(decimate_samples(s, b).subrange(lo, hi)) == fold_max(
            s.subrange(bin_end(s.len(), b, lo), bin_end(s.len(), b, hi)),
        ),
    decreases hi - lo,
{
    let n = s.len();
    let p = decimate_samples(s, b);
    if lo == hi {
        assert(p.subrange(lo, hi) =~= Seq::<MinMaxPair>::empty());
        assert(s.subrange(bin_end(n, b, lo), bin_end(n, b, hi)) =~= Seq::<u32>::empty());
    } else {
        lemma_pairs_fold_run(s, b, lo, hi - 1);
        let q = p.subrange(lo, hi);
        assert(q.drop_last() =~= p.subrange(lo, hi - 1));
        let i = hi - 1;
        lemma_chunk_index(n, b, i);
        lemma_chunk_index(n, b, lo);
        assert(lo * b <= i * b) by (nonlinear_arith)
            requires
                lo <= i,
                b > 0,
        ;
        assert(i * b + b == hi * b) by (nonlinear_arith)
            requires
                i == hi - 1,
        ;
        let chunk = chunk_of(s, b, i);
        assert(has_number(chunk));
        lemma_fold_min(chunk);
        lemma_fold_max(chunk);
        assert(q.last() == p[i]);
        assert(p[i] == sample_summary(chunk));
        let start = bin_end(n, b, lo);
        let mid = bin_end(n, b, i);
        let end = bin_end(n, b, hi);
        assert(chunk == s.subrange(mid, end));
        lemma_fold_min_concat(s.subrange(start, mid), chunk);
        lemma_fold_max_concat(s.subrange(start, mid), chunk);
        assert(s.subrange(start, mid) + chunk =~= s.subrange(start, end));
    }
}

/// A bin of `b * c` samples holds a number when each of its `b`-bins does.
proof fn lemma_numbered_coarsen(s: Seq<u32>, b: nat, c: nat)
    requires
        b > 0,
        c > 0,
        all_bins_numbered(s, b),
    ensures
        all_bins_numbered(s, b * c),
{
    let n = s.len();
    assert forall|j: int| 0 <= j < num_chunks(n, b * c) implies has_number(
        #[trigger] chunk_of(s, b * c, j),
    ) by {
        lemma_chunk_index(n, b * c, j);
        assert(j * c * b == j * (b * c)) by (nonlinear_arith);
        lemma_chunk_index(n, b, j * c);
        let fine = chunk_of(s, b, j * c);
        let coarse = chunk_of(s, b * c, j);
        assert(has_number(fine));
        let t = choose|t: int| 0 <= t < fine.len() && !f32_is_nan(#[trigger] fine[t]);
        assert((j * c + 1) * b <= (j + 1) * (b * c)) by (nonlinear_arith)
            requires
                c >= 1,
                b >= 1,
                j >= 0,
        ;
        assert((j * c + 1) * b == j * c * b + b) by (nonlinear_arith);
        assert((j + 1) * (b * c) == j * (b * c) + b * c) by (nonlinear_arith);
        assert(coarse[t] == fine[t]);
    }
}

/// Reducing the summaries of bins of `b` samples by bins of `c` pairs gives
/// the summaries of bins of `b * c` samples, provided every bin of `b`
/// samples holds a number (a bin of NaN alone is summarised as
/// `(0.0, 0.0)`, which the next reduction then counts as data).
pub proof fn lemma_decimation_composes(s: Seq<u32>, b: nat, c: nat)
    requires
        b > 0,
        c > 0,
        all_bins_numbered(s, b),
    ensures
        decimate_pairs(decimate_samples(s, b), c) == decimate_samples(s, b * c),
{
    let n = s.len();
    let p = decimate_samples(s, b);
    let np = p.len();
    let x = num_chunks(np, c);
    let y = num_chunks(n, b * c);
    assert(b * c > 0) by (nonlinear_arith)
        requires
            b > 0,
            c > 0,
    ;
    lemma_chunk_index(np, c, x as int);
    lemma_chunk_index(n, b, (x * c) as int);
    lemma_chunk_index(n, b * c, x as int);
    lemma_chunk_index(n, b * c, y as int);
    lemma_chunk_index(n, b, (y * c) as int);
    lemma_chunk_index(np, c, y as int);
    assert(x * c * b == x * (b * c)) by (nonlinear_arith);
    assert(y * c * b == y * (b * c)) by (nonlinear_arith);
    assert(x == y);
    lemma_chunk_index(n, b, np as int);
    assert forall|j: int| 0 <= j < x implies #[trigger] decimate_pairs(p, c)[j]
        == decimate_samples(s, b * c)[j] by {
        lemma_chunk_index(np, c, j);
        let lo = j * c;
        let hi = if (j + 1) * c <= np { (j + 1) * c } else { np as int };
        assert(lo < hi) by (nonlinear_arith)
            requires
                lo == j * c,
                lo < np,
                hi == (if (j + 1) * c <= np { (j + 1) * c } else { np as int }),
                c > 0,
        ;
        let q = chunk_of(p, c, j);
        assert(q == p.subrange(lo, hi));
        lemma_pairs_fold_run(s, b, lo, hi);
        lemma_chunk_index(n, b, lo);
        assert(lo * b == j * (b * c)) by (nonlinear_arith)
            requires
                lo == j * c,
        ;
        let coarse = chunk_of(s, b * c, j);
        assert(bin_end(n, b, lo) == j * (b * c));
        if (j + 1) * c <= np {
            assert(hi * b == (j + 1) * (b * c)) by (nonlinear_arith)
                requires
                    hi == (j + 1) * c,
            ;
        } else {
            assert(np + 1 <= (j + 1) * c);
            assert(np * b <= (j + 1) * c * b) by (nonlinear_arith)
                requires
                    np + 1 <= (j + 1) * c,
                    b > 0,
            ;
            assert((j + 1) * c * b == (j + 1) * (b * c)) by (nonlinear_arith);
        }
        assert(coarse == s.subrange(bin_end(n, b, lo), bin_end(n, b, hi)));
        assert(pair_is_valid(q[0])) by {
            assert(q[0] == p[lo]);
            lemma_fold_min(chunk_of(s, b, lo));
            lemma_fold_max(chunk_of(s, b, lo));
        }
        assert(has_valid_pair(q));
        lemma_numbered_coarsen(s, b, c);
        lemma_chunk_index(n, b * c, j);
        assert(has_number(coarse));
    }
    assert(decimate_pairs(p, c) =~= decimate_samples(s, b * c));
}

/// Every level of a pyramid built with factor `f` summarises the raw
/// samples directly: level `k` holds the summaries of bins of `f^(k+1)`
/// samples, provided every bin of `f` samples holds a number.
pub proof fn lemma_levels_summarise_samples(s: Seq<u32>, f: nat, k: nat)
    requires
        f > 0,
        all_bins_numbered(s, f),
    ensures
        hier_levels(s, f, k) == decimate_samples(s, pow(f as int, k + 1) as nat),
    decreases k,
{
    lemma_pow1(f as int);
    if k > 0 {
        lemma_levels_summarise_samples(s, f, (k - 1) as nat);
        let b = pow(f as int, k) as nat;
        lemma_pow_positive(f as int, k);
        lemma_pow_adds(f as int, k, 1);
        assert(pow(f as int, k + 1) == b * f);
        lemma_levels_numbered(s, f, k);
        lemma_decimation_composes(s, b, f);
    }
}

/// Every bin of `f^k` samples holds a number when every bin of `f` samples does.
proof fn lemma_levels_numbered(s: Seq<u32>, f: nat, k: nat)
    requires
        f > 0,
        k >= 1,
        all_bins_numbered(s, f),
    ensures
        all_bins_numbered(s, pow(f as int, k) as nat),
    decreases k,
{
    lemma_pow1(f as int);
    if k > 1 {
        lemma_levels_numbered(s, f, (k - 1) as nat);
        let b = pow(f as int, (k - 1) as nat) as nat;
        lemma_pow_positive(f as int, (k - 1) as nat);
        lemma_pow_adds(f as int, (k - 1) as nat, 1);
        assert(pow(f as int, k) == b * f);
        lemma_numbered_coarsen(s, b, f);
    }
}

/// Each level of a pyramid built from `s` holds the summaries of the bins
/// of `step_factor` raw samples, provided every bin of `factor` samples
/// holds a number.
pub proof fn lemma_pyramid_levels_summarise(levels: Seq<LodLevel>, s: Seq<u32>, f: nat, m: nat)
    requires
        f > 0,
        levels_built(levels, s, f, m),
        all_bins_numbered(s, f),
    ensures
        forall|k: int|
            0 <= k < levels.len() ==> (#[trigger] levels[k]).pairs@ == decimate_samples(
                s,
                levels[k].step_factor as nat,
            ),
{
    assert forall|k: int| 0 <= k < levels.len() implies (#[trigger] levels[k]).pairs@
        == decimate_samples(s, levels[k].step_factor as nat) by {
        lemma_levels_summarise_samples(s, f, k as nat);
    }
}

/// `j` lies in bin `j / b` of bins of `b` items.
proof fn lemma_div_bounds(j: int, b: int)
    requires
        j >= 0,
        b > 0,
    ensures
        j / b >= 0,
        (j / b) * b <= j < (j / b) * b + b,
{
    vstd::arithmetic::div_mod::lemma_fundamental_div_mod(j, b);
    vstd::arithmetic::div_mod::lemma_mod_bound(j, b);
    vstd::arithmetic::div_mod::lemma_div_pos_is_pos(j, b);
    vstd::arithmetic::mul::lemma_mul_is_commutative(b, j / b);
}

/// The reduction of a run of pairs has no NaN bound, lies below the lower
/// bound of every valid pair of the run and above its upper bound.
proof fn lemma_pairs_fold_bounds(ps: Seq<MinMaxPair>)
    ensures
        !f32_is_nan(pairs_fold_min(ps)),
        !f32_is_nan(pairs_fold_max(ps)),
        forall|i: int|
            0 <= i < ps.len() && pair_is_valid(#[trigger] ps[i]) ==> !f32_lt(ps[i].min, pairs_fold_min(ps))
                && !f32_lt(pairs_fold_max(ps), ps[i].max),
    decreases ps.len(),
{
    lemma_rank_bounds(F32_POS_INF);
    lemma_rank_bounds(F32_NEG_INF);
    if ps.len() > 0 {
        let init = ps.drop_last();
        lemma_pairs_fold_bounds(init);
        let p = ps.last();
        lemma_rank_bounds(p.min);
        lemma_rank_bounds(p.max);
        assert forall|i: int|
            0 <= i < ps.len() && pair_is_valid(#[trigger] ps[i]) implies !f32_lt(ps[i].min, pairs_fold_min(ps))
                && !f32_lt(pairs_fold_max(ps), ps[i].max) by {
            if i < ps.len() - 1 {
                assert(init[i] == ps[i]);
            }
        }
    }
}

/// Level `k` of the pyramid of `s` bounds every number of the samples it
/// covers: the pair covering sample `j` (index `j / f^(k+1)`) has no NaN
/// bound and `min <= s[j] <= max`.
proof fn lemma_level_envelope(s: Seq<u32>, f: nat, k: nat, j: int)
    requires
        f >= 1,
        0 <= j < s.len(),
        !f32_is_nan(s[j]),
    ensures
        ({
            let ps = hier_levels(s, f, k);
            let i = j / pow(f as int, k + 1);
            &&& 0 <= i < ps.len()
            &&& pair_is_valid(ps[i])
            &&& !f32_lt(s[j], ps[i].min)
            &&& !f32_lt(ps[i].max, s[j])
        }),
    decreases k,
{
    let n = s.len();
    lemma_pow1(f as int);
    lemma_rank_bounds(s[j]);
    if k == 0 {
        let i = j / (f as int);
        lemma_div_bounds(j, f as int);
        lemma_chunk_index(n, f, i);
        assert((i + 1) * f == i * f + f) by (nonlinear_arith);
        let chunk = chunk_of(s, f, i);
        assert(0 <= j - i * f < chunk.len());
        assert(chunk[j - i * f] == s[j]);
        assert(has_number(chunk));
        lemma_fold_min(chunk);
        lemma_fold_max(chunk);
        assert(hier_levels(s, f, 0)[i] == sample_summary(chunk));
    } else {
        let km = (k - 1) as nat;
        lemma_level_envelope(s, f, km, j);
        let prev = hier_levels(s, f, km);
        let b = pow(f as int, k);
        lemma_pow_positive(f as int, k);
        lemma_pow_adds(f as int, k, 1);
        let ip = j / b;
        let i = ip / (f as int);
        vstd::arithmetic::div_mod::lemma_div_denominator(j, b, f as int);
        assert(i == j / pow(f as int, k + 1));
        lemma_div_bounds(j, b);
        lemma_div_bounds(ip, f as int);
        lemma_chunk_index(prev.len(), f, i);
        assert((i + 1) * f == i * f + f) by (nonlinear_arith);
        let chunk = chunk_of(prev, f, i);
        let q = prev[ip];
        assert(0 <= ip - i * f < chunk.len());
        assert(chunk[ip - i * f] == q);
        assert(has_valid_pair(chunk));
        lemma_pairs_fold_bounds(chunk);
        lemma_rank_bounds(q.min);
        lemma_rank_bounds(q.max);
        lemma_rank_bounds(pairs_fold_min(chunk));
        lemma_rank_bounds(pairs_fold_max(chunk));
        assert(hier_levels(s, f, k)[i] == pair_summary(chunk));
    }
}

/// Every level of a built pyramid keeps the envelope of the signal: for
/// every number `s[j]` of the raw series, the pair of level `k` that covers
/// it (index `j / step_factor`) has no NaN bound and `min <= s[j] <= max`.
/// This holds for every input, bins of NaN alone included.
pub proof fn lemma_pyramid_envelopes(levels: Seq<LodLevel>, s: Seq<u32>, f: nat, m: nat, k: int, j: int)
    requires
        f >= 1,
        levels_built(levels, s, f, m),
        0 <= k < levels.len(),
        0 <= j < s.len(),
        !f32_is_nan(s[j]),
    ensures
        ({
            let l = levels[k];
            let i = j / (l.step_factor as int);
            &&& 0 <= i < l.pairs@.len()
            &&& pair_is_valid(l.pairs@[i])
            &&& !f32_lt(s[j], l.pairs@[i].min)
            &&& !f32_lt(l.pairs@[i].max, s[j])
        }),
{
    lemma_level_envelope(s, f, k as nat, j);
}

/// Range of a raw series: its smallest and largest numbers, or `(-1.0, 1.0)`
/// when they do not form a finite, non-empty range.
pub open spec fn range_of_samples(s: Seq<u32>) -> (u32, u32) {
    let lo = fold_min(s);
    let hi = fold_max(s);
    if f32_is_finite(lo) && f32_is_finite(hi) && f32_lt(lo, hi) {
        (lo, hi)
    } else {
        (F32_NEG_ONE, F32_ONE)
    }
}

/// Over pairs without NaN bounds, scanning the lower (upper) bounds alone
/// gives the reduction of the pairs.
proof fn lemma_valid_pairs_fold(ps: Seq<MinMaxPair>)
    requires
        forall|i: int| 0 <= i < ps.len() ==> pair_is_valid(#[trigger] ps[i]),
    ensures
        fold_min(ps.map_values(|p: MinMaxPair| p.min)) == pairs_fold_min(ps),
        fold_max(ps.map_values(|p: MinMaxPair| p.max)) == pairs_fold_max(ps),
    decreases ps.len(),
{
    if ps.len() > 0 {
        let init = ps.drop_last();
        assert forall|i: int| 0 <= i < init.len() implies pair_is_valid(#[trigger] init[i]) by {
            assert(init[i] == ps[i]);
        }
        lemma_valid_pairs_fold(init);
        assert(ps.map_values(|p: MinMaxPair| p.min).drop_last() =~= init.map_values(
            |p: MinMaxPair| p.min,
        ));
        assert(ps.map_values(|p: MinMaxPair| p.max).drop_last() =~= init.map_values(
            |p: MinMaxPair| p.max,
        ));
        assert(pair_is_valid(ps[ps.len() - 1]));
    }
}

/// The global range read from the top level of a pyramid built from `s` is
/// the range of the raw samples themselves, provided every bin of `factor`
/// samples holds a number (a bin of NaN alone enters the pyramid as
/// `(0.0, 0.0)`).
pub proof fn lemma_global_range_of_signal(levels: Seq<LodLevel>, s: Seq<u32>, f: nat, m: nat)
    requires
        f > 0,
        levels_built(levels, s, f, m),
        all_bins_numbered(s, f),
    ensures
        range_of_pairs(levels.last().pairs@) == range_of_samples(s),
{
    let k = (levels.len() - 1) as nat;
    lemma_pyramid_levels_summarise(levels, s, f, m);
    let top = levels[k as int];
    assert(levels.last() == top);
    assert(top.step_factor == pow(f as int, k + 1));
    lemma_pow_positive(f as int, k + 1);
    lemma_levels_numbered(s, f, k + 1);
    let b = top.step_factor as nat;
    let n = s.len();
    let p = decimate_samples(s, b);
    assert(top.pairs@ == p);
    assert forall|i: int| 0 <= i < p.len() implies pair_is_valid(#[trigger] p[i]) by {
        let chunk = chunk_of(s, b, i);
        assert(has_number(chunk));
        lemma_fold_min(chunk);
        lemma_fold_max(chunk);
    }
    lemma_valid_pairs_fold(p);
    lemma_pairs_fold_run(s, b, 0, p.len() as int);
    assert(p.subrange(0, p.len() as int) =~= p);
    lemma_chunk_index(n, b, p.len() as int);
    assert(bin_end(n, b, 0) == 0);
    assert(bin_end(n, b, p.len() as int) == n);
    assert(s.subrange(0, n as int) =~= s);
}

/// The identity pair `(f32::MAX, f32::MIN)` is neutral for `combine` on
/// either side, for pairs of finite bounds.
pub proof fn lemma_identity_is_neutral(p: MinMaxPair)
    requires
        f32_is_finite(p.min),
        f32_is_finite(p.max),
    ensures
        f32_min_num(F32_MAX, p.min) == p.min,
        f32_max_num(F32_LOWEST, p.max) == p.max,
        f32_min_num(p.min, F32_MAX) == p.min,
        f32_max_num(p.max, F32_LOWEST) == p.max,
{
}

/// Reducing two valid pairs gives the pair that `combine` computes.
pub proof fn lemma_combine_is_reduction(p: MinMaxPair, q: MinMaxPair)
    requires
        pair_is_valid(p),
        pair_is_valid(q),
    ensures
        pair_summary(seq![p, q]) == (MinMaxPair {
            min: f32_min_num(p.min, q.min),
            max: f32_max_num(p.max, q.max),
        }),
{
    let s = seq![p, q];
    lemma_rank_bounds(p.min);
    lemma_rank_bounds(p.max);
    assert(s.drop_last() =~= seq![p]);
    assert(seq![p].drop_last() =~= Seq::<MinMaxPair>::empty());
    assert(s[0] == p);
    assert(s.last() == q);
    assert(seq![p].last() == p);
    lemma_rank_bounds(F32_POS_INF);
    lemma_rank_bounds(F32_NEG_INF);
    let e = seq![p].drop_last();
    assert(e =~= Seq::<MinMaxPair>::empty());
    assert(pairs_fold_min(e) == F32_POS_INF);
    assert(pairs_fold_max(e) == F32_NEG_INF);
    assert(pairs_fold_min(seq![p]) == p.min);
    assert(pairs_fold_max(seq![p]) == p.max);
    assert(pairs_fold_min(s) == f32_min_num(p.min, q.min));
    assert(pairs_fold_max(s) == f32_max_num(p.max, q.max));
    assert(has_valid_pair(s));
}

/// More levels further up fit in more visible samples.
proof fn lemma_lod_steps_monotone(v1: int, v2: int, t: int, f: int)
    requires
        t >= 1,
        f >= 2,
        v1 <= v2,
    ensures
        lod_steps(v1, t, f) <= lod_steps(v2, t, f),
    decreases v2 - t,
{
    if t * f <= v1 {
        assert(t * f >= 2 * t) by (nonlinear_arith)
            requires
                t >= 1,
                f >= 2,
        ;
        lemma_lod_steps_monotone(v1, v2, t * f, f);
    }
}

/// `lod_steps` is the floor of a logarithm: `k = lod_steps(v, t, f)` is the
/// exponent with `t * f^k <= v < t * f^(k+1)`.
proof fn lemma_lod_steps_bounds(v: int, t: int, f: int)
    requires
        t >= 1,
        f >= 2,
        t <= v,
    ensures
        t * pow(f, lod_steps(v, t, f)) <= v,
        v < t * pow(f, lod_steps(v, t, f) + 1),
    decreases v - t,
{
    lemma_pow1(f);
    vstd::arithmetic::power::lemma_pow0(f);
    if t * f <= v {
        assert(t * f >= 2 * t) by (nonlinear_arith)
            requires
                t >= 1,
                f >= 2,
        ;
        let k = lod_steps(v, t * f, f);
        lemma_lod_steps_bounds(v, t * f, f);
        lemma_pow_adds(f, 1, k);
        lemma_pow_adds(f, 1, k + 1);
        assert(t * pow(f, k + 1) == (t * f) * pow(f, k)) by (nonlinear_arith)
            requires
                pow(f, k + 1) == f * pow(f, k),
        ;
        assert(t * pow(f, k + 2) == (t * f) * pow(f, k + 1)) by (nonlinear_arith)
            requires
                pow(f, k + 2) == f * pow(f, k + 1),
        ;
    }
}

/// A range of `t * f^k` bins fits in `v` samples only when `lod_steps`
/// counts at least `k` levels.
proof fn lemma_lod_steps_at_least(v: int, t: int, f: int, k: nat)
    requires
        t >= 1,
        f >= 2,
        t * pow(f, k) <= v,
    ensures
        lod_steps(v, t, f) >= k,
{
    vstd::arithmetic::power::lemma_pow_positive(f, k);
    assert(t <= t * pow(f, k)) by (nonlinear_arith)
        requires
            t >= 1,
            pow(f, k) >= 1,
    ;
    lemma_lod_steps_bounds(v, t, f);
    let steps = lod_steps(v, t, f);
    if k > steps {
        vstd::arithmetic::power::lemma_pow_increases(f as nat, steps + 1, k);
        assert(t * pow(f, steps + 1) <= t * pow(f, k)) by (nonlinear_arith)
            requires
                pow(f, steps + 1) <= pow(f, k),
                t >= 1,
        ;
    }
}

/// The level chosen for a viewport is the floor of a logarithm: with
/// `target = width * max(oversampling, 1)` bins (`m * 2^e` below), a factor
/// of at least 2 and no fewer visible samples than bins, the chosen level
/// `k` satisfies `target * factor^k <= visible`, and `visible < target *
/// factor^(k+1)` unless `k` is the top level, where the choice is capped.
pub proof fn lemma_optimal_lod_is_floor_log(
    num_levels: nat,
    factor: nat,
    visible: nat,
    width: u32,
    oversampling: u32,
)
    requires
        factor >= 2,
        num_levels >= 1,
        visible >= 1,
        0 < width < F32_POS_INF,
        effective_oversampling(oversampling) != F32_POS_INF,
        dyadic_le(
            f32_mant(width) * f32_mant(effective_oversampling(oversampling)),
            f32_exp2(width) + f32_exp2(effective_oversampling(oversampling)),
            visible,
        ),
    ensures
        ({
            let o = effective_oversampling(oversampling);
            let m = f32_mant(width) * f32_mant(o);
            let e = f32_exp2(width) + f32_exp2(o);
            let k = optimal_lod(num_levels, factor, visible, width, oversampling);
            &&& dyadic_le(m * pow(factor as int, k), e, visible)
            &&& k < num_levels - 1 ==> !dyadic_le(m * pow(factor as int, k + 1), e, visible)
        }),
{
    let o = effective_oversampling(oversampling);
    let m = f32_mant(width) * f32_mant(o);
    let e = f32_exp2(width) + f32_exp2(o);
    lemma_target_parts(width, oversampling);
    let b = scaled_visible(visible, e);
    lemma_scaled_visible(m, e, visible);
    let steps = lod_steps(b, m, factor as int);
    lemma_lod_steps_bounds(b, m, factor as int);
    let k = optimal_lod(num_levels, factor, visible, width, oversampling);
    vstd::arithmetic::power::lemma_pow_positive(factor as int, k);
    vstd::arithmetic::power::lemma_pow_positive(factor as int, k + 1);
    if k < steps {
        vstd::arithmetic::power::lemma_pow_increases(factor, k, steps);
        assert(m * pow(factor as int, k) <= m * pow(factor as int, steps)) by (nonlinear_arith)
            requires
                pow(factor as int, k) <= pow(factor as int, steps),
                m >= 1,
        ;
    }
    assert(m * pow(factor as int, k) >= 0) by (nonlinear_arith)
        requires
            m >= 1,
            pow(factor as int, k) >= 1,
    ;
    assert(m * pow(factor as int, k + 1) >= 0) by (nonlinear_arith)
        requires
            m >= 1,
            pow(factor as int, k + 1) >= 1,
    ;
    lemma_scaled_visible(m * pow(factor as int, k), e, visible);
    lemma_scaled_visible(m * pow(factor as int, k + 1), e, visible);
}

/// Zooming out never selects a finer level: with the pyramid and viewport
/// unchanged, more visible samples select a level at least as high, and the
/// level chosen is always one of the pyramid's.
pub proof fn lemma_optimal_lod_monotone(
    num_levels: nat,
    factor: nat,
    v1: nat,
    v2: nat,
    width: u32,
    oversampling: u32,
)
    requires
        v1 <= v2,
    ensures
        optimal_lod(num_levels, factor, v1, width, oversampling) <= optimal_lod(
            num_levels,
            factor,
            v2,
            width,
            oversampling,
        ),
        num_levels > 0 ==> optimal_lod(num_levels, factor, v2, width, oversampling) < num_levels,
{
    let o = effective_oversampling(oversampling);
    if num_levels > 0 && v1 > 0 && 0 < width < F32_POS_INF && o != F32_POS_INF && factor >= 1 {
        let m = f32_mant(width) * f32_mant(o);
        let e = f32_exp2(width) + f32_exp2(o);
        lemma_target_parts(width, oversampling);
        lemma_scaled_visible(m, e, v1);
        lemma_scaled_visible(m, e, v2);
        vstd::arithmetic::power2::lemma_pow2_pos(172);
        assert(v1 * pow2(172) <= v2 * pow2(172)) by (nonlinear_arith)
            requires
                v1 <= v2,
                pow2(172) > 0,
        ;
        if factor >= 2 {
            let b1 = scaled_visible(v1, e);
            let b2 = scaled_visible(v2, e);
            if e >= 0 {
                vstd::arithmetic::power2::lemma_pow2_pos(e as nat);
                vstd::arithmetic::div_mod::lemma_div_is_ordered(v1 as int, v2 as int, pow2(e as nat) as int);
            } else {
                vstd::arithmetic::power2::lemma_pow2_pos((-e) as nat);
                assert(b1 <= b2) by (nonlinear_arith)
                    requires
                        b1 == v1 * pow2((-e) as nat),
                        b2 == v2 * pow2((-e) as nat),
                        v1 <= v2,
                        pow2((-e) as nat) > 0,
                ;
            }
            if m <= b1 {
                lemma_lod_steps_monotone(b1, b2, m, factor as int);
            } else {
                assert(m * (factor as int) > b1) by (nonlinear_arith)
                    requires
                        m > b1,
                        m >= 1,
                        factor >= 2,
                ;
                assert(lod_steps(b1, m, factor as int) == 0);
            }
        }
    }
}

/// Magnitude of a positive finite `f32` as a whole number: its value times `2^149`.
pub open spec fn width_magnitude(b: u32) -> int {
    f32_mant(b) * pow2((f32_exp2(b) + 149) as nat)
}

/// For positive finite `f32` values, the order of the bit patterns is the
/// order of the values.
proof fn lemma_width_magnitude_monotone(b1: u32, b2: u32)
    requires
        0 < b1 <= b2 < F32_POS_INF,
    ensures
        width_magnitude(b1) <= width_magnitude(b2),
{
    let x1 = b1 / 0x80_0000;
    let x2 = b2 / 0x80_0000;
    assert(x1 <= x2);
    assert(f32_exponent(b1) == x1);
    assert(f32_exponent(b2) == x2);
    if x1 == x2 {
        assert(f32_fraction(b1) <= f32_fraction(b2));
        vstd::arithmetic::power2::lemma_pow2_pos((f32_exp2(b1) + 149) as nat);
        assert(width_magnitude(b1) <= width_magnitude(b2)) by (nonlinear_arith)
            requires
                f32_mant(b1) <= f32_mant(b2),
                f32_exp2(b1) == f32_exp2(b2),
                pow2((f32_exp2(b1) + 149) as nat) > 0,
                width_magnitude(b1) == f32_mant(b1) * pow2((f32_exp2(b1) + 149) as nat),
                width_magnitude(b2) == f32_mant(b2) * pow2((f32_exp2(b2) + 149) as nat),
        ;
    } else {
        let p1 = pow2((f32_exp2(b1) + 149) as nat) as int;
        let p2 = pow2((f32_exp2(b2) + 149) as nat) as int;
        assert(f32_mant(b2) >= 0x80_0000);
        assert(f32_mant(b1) < 0x100_0000);
        if x1 == 0 {
            assert(p1 == 1) by {
                vstd::arithmetic::power2::lemma2_to64();
            }
            vstd::arithmetic::power2::lemma_pow2_pos((f32_exp2(b2) + 149) as nat);
            assert(width_magnitude(b1) <= width_magnitude(b2)) by (nonlinear_arith)
                requires
                    f32_mant(b1) < 0x80_0000,
                    f32_mant(b2) >= 0x80_0000,
                    p2 >= 1,
                    p1 == 1,
                    width_magnitude(b1) == f32_mant(b1) * p1,
                    width_magnitude(b2) == f32_mant(b2) * p2,
            ;
        } else {
            let d = (f32_exp2(b2) - f32_exp2(b1)) as nat;
            assert(d >= 1);
            lemma_pow2_adds((f32_exp2(b1) + 149) as nat, d);
            vstd::arithmetic::power2::lemma_pow2_pos((f32_exp2(b1) + 149) as nat);
            vstd::arithmetic::power2::lemma_pow2_pos((d - 1) as nat);
            lemma_pow2_adds(1, (d - 1) as nat);
            vstd::arithmetic::power2::lemma2_to64();
            assert(p2 == p1 * pow2(d));
            assert(pow2(d) >= 2) by (nonlinear_arith)
                requires
                    pow2(d) == pow2(1) * pow2((d - 1) as nat),
                    pow2(1) == 2,
                    pow2((d - 1) as nat) >= 1,
            ;
            assert(width_magnitude(b1) <= width_magnitude(b2)) by (nonlinear_arith)
                requires
                    f32_mant(b1) < 0x100_0000,
                    f32_mant(b2) >= 0x80_0000,
                    p1 >= 1,
                    pow2(d) >= 2,
                    p2 == p1 * pow2(d),
                    width_magnitude(b1) == f32_mant(b1) * p1,
                    width_magnitude(b2) == f32_mant(b2) * p2,
            ;
        }
    }
}

/// The scaled form of `m_w * m_o * x * 2^(e_w + e_o)` splits into the
/// width's magnitude and the oversampling's.
proof fn lemma_target_split(width: u32, o: u32, x: int)
    requires
        f32_exp2(width) >= -149,
        f32_exp2(o) >= -23,
    ensures
        (f32_mant(width) * f32_mant(o) * x) * pow2((f32_exp2(width) + f32_exp2(o) + 172) as nat)
            == width_magnitude(width) * (f32_mant(o) * pow2((f32_exp2(o) + 23) as nat) * x),
{
    lemma_pow2_adds((f32_exp2(width) + 149) as nat, (f32_exp2(o) + 23) as nat);
    let a = f32_mant(width);
    let c = f32_mant(o);
    let pw = pow2((f32_exp2(width) + 149) as nat) as int;
    let po = pow2((f32_exp2(o) + 23) as nat) as int;
    assert((a * c * x) * (pw * po) == (a * pw) * (c * po * x)) by (nonlinear_arith);
}

/// A wider viewport never selects a higher level: with the pyramid, the
/// visible samples and the oversampling unchanged, a larger positive finite
/// width (for which the order of the bit patterns is the order of the
/// values) selects a level at most as high.
pub proof fn lemma_optimal_lod_width_monotone(
    num_levels: nat,
    factor: nat,
    visible: nat,
    w1: u32,
    w2: u32,
    oversampling: u32,
)
    requires
        0 < w1 <= w2 < F32_POS_INF,
    ensures
        optimal_lod(num_levels, factor, visible, w2, oversampling) <= optimal_lod(
            num_levels,
            factor,
            visible,
            w1,
            oversampling,
        ),
{
    let o = effective_oversampling(oversampling);
    if num_levels > 0 && visible > 0 && o != F32_POS_INF && factor >= 1 {
        lemma_target_parts(w1, oversampling);
        lemma_target_parts(w2, oversampling);
        lemma_width_magnitude_monotone(w1, w2);
        let m1 = f32_mant(w1) * f32_mant(o);
        let m2 = f32_mant(w2) * f32_mant(o);
        let e1 = f32_exp2(w1) + f32_exp2(o);
        let e2 = f32_exp2(w2) + f32_exp2(o);
        let po = f32_mant(o) * pow2((f32_exp2(o) + 23) as nat);
        vstd::arithmetic::power2::lemma_pow2_pos((f32_exp2(o) + 23) as nat);
        assert(po >= 1) by (nonlinear_arith)
            requires
                po == f32_mant(o) * pow2((f32_exp2(o) + 23) as nat),
                f32_mant(o) >= 1,
                pow2((f32_exp2(o) + 23) as nat) >= 1,
        ;
        if factor == 1 {
            lemma_scaled_visible(m1, e1, visible);
            lemma_scaled_visible(m2, e2, visible);
            lemma_target_split(w1, o, 1);
            lemma_target_split(w2, o, 1);
            assert(width_magnitude(w1) * (po * 1) <= width_magnitude(w2) * (po * 1)) by (nonlinear_arith)
                requires
                    width_magnitude(w1) <= width_magnitude(w2),
                    po >= 1,
            ;
        } else {
            let f = factor as int;
            let b1 = scaled_visible(visible, e1);
            let b2 = scaled_visible(visible, e2);
            let k2 = optimal_lod(num_levels, factor, visible, w2, oversampling);
            let s2 = lod_steps(b2, m2, f);
            lemma_scaled_visible(m2, e2, visible);
            if m2 <= b2 {
                lemma_lod_steps_bounds(b2, m2, f);
                vstd::arithmetic::power::lemma_pow_positive(f, k2);
                if k2 < s2 {
                    vstd::arithmetic::power::lemma_pow_increases(factor, k2, s2);
                    assert(m2 * pow(f, k2) <= m2 * pow(f, s2)) by (nonlinear_arith)
                        requires
                            pow(f, k2) <= pow(f, s2),
                            m2 >= 1,
                    ;
                }
                let x = pow(f, k2);
                assert(m2 * x >= 0 && m1 * x >= 0) by (nonlinear_arith)
                    requires
                        m1 >= 1,
                        m2 >= 1,
                        x >= 1,
                ;
                lemma_scaled_visible(m2 * x, e2, visible);
                lemma_scaled_visible(m1 * x, e1, visible);
                lemma_target_split(w1, o, x);
                lemma_target_split(w2, o, x);
                assert(width_magnitude(w1) * (po * x) <= width_magnitude(w2) * (po * x)) by (nonlinear_arith)
                    requires
                        width_magnitude(w1) <= width_magnitude(w2),
                        po >= 1,
                        x >= 1,
                ;
                assert(f32_mant(w1) * f32_mant(o) * x == m1 * x);
                assert(f32_mant(w2) * f32_mant(o) * x == m2 * x);
                assert(m1 * x <= b1);
                lemma_lod_steps_at_least(b1, m1, f, k2);
            } else {
                assert(m2 * f > b2) by (nonlinear_arith)
                    requires
                        m2 > b2,
                        m2 >= 1,
                        f >= 2,
                ;
                assert(lod_steps(b2, m2, f) == 0);
            }
        }
    }
}

/// The global range of a top level is always a finite, non-empty interval.
pub proof fn lemma_global_range_is_interval(pairs: Seq<MinMaxPair>)
    ensures
        f32_is_finite(range_of_pairs(pairs).0),
        f32_is_finite(range_of_pairs(pairs).1),
        crate::float_bits::f32_lt(range_of_pairs(pairs).0, range_of_pairs(pairs).1),
{
}

/// The oversampling enters the level choice as `max(oversampling, 1.0)`:
/// an oversampling of at most 1.0 (or NaN) selects as 1.0 does, and a
/// finite oversampling above 1.0 multiplies the width as it is, so the level
/// is the floor of `log_factor(visible / (width * oversampling))`, capped at
/// the top level, with `width * oversampling = m * 2^e` below.
pub proof fn lemma_oversampling_is_max_with_one(
    num_levels: nat,
    factor: nat,
    visible: nat,
    width: u32,
    oversampling: u32,
)
    ensures
        !f32_lt(F32_ONE, oversampling) ==> optimal_lod(num_levels, factor, visible, width, oversampling)
            == optimal_lod(num_levels, factor, visible, width, F32_ONE),
        factor >= 2 && num_levels >= 1 && visible >= 1 && 0 < width < F32_POS_INF && f32_lt(
            F32_ONE,
            oversampling,
        ) && oversampling < F32_POS_INF ==> ({
            let m = f32_mant(width) * f32_mant(oversampling);
            let e = f32_exp2(width) + f32_exp2(oversampling);
            let k = optimal_lod(num_levels, factor, visible, width, oversampling);
            &&& k == (if lod_steps(scaled_visible(visible, e), m, factor as int) < num_levels - 1 {
                lod_steps(scaled_visible(visible, e), m, factor as int)
            } else {
                (num_levels - 1) as nat
            })
            &&& dyadic_le(m, e, visible) ==> dyadic_le(m * pow(factor as int, k), e, visible)
            &&& dyadic_le(m, e, visible) && k < num_levels - 1 ==> !dyadic_le(
                m * pow(factor as int, k + 1),
                e,
                visible,
            )
        }),
{
    assert(effective_oversampling(F32_ONE) == F32_ONE);
    if factor >= 2 && num_levels >= 1 && visible >= 1 && 0 < width < F32_POS_INF && f32_lt(
        F32_ONE,
        oversampling,
    ) && oversampling < F32_POS_INF {
        assert(effective_oversampling(oversampling) == oversampling);
        let m = f32_mant(width) * f32_mant(oversampling);
        let e = f32_exp2(width) + f32_exp2(oversampling);
        if dyadic_le(m, e, visible) {
            lemma_optimal_lod_is_floor_log(num_levels, factor, visible, width, oversampling);
        }
    }
}

} // verus!
