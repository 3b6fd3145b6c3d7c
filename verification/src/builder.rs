//! Construction of the level-of-detail pyramid from a raw series.

use vstd::prelude::*;

use vstd::arithmetic::power::{lemma_pow1, lemma_pow_adds, pow};

use vstd::arithmetic::div_mod::{lemma_fundamental_div_mod, lemma_fundamental_div_mod_converse};

use crate::arith::lemma_num_chunks_shrinks;
use crate::pyramid::{LodLevel, LodPyramid, DEFAULT_LOD_FACTOR};
use crate::simd::{
    decimate_pairs, decimate_samples, num_chunks, reduce_min_max_chunk, reduce_min_max_pairs,
    MinMaxPair,
};

verus! {

/// Pairs of level `k` when every level is reduced from the one below by
/// bins of `f`: level 0 summarises the samples, level `k + 1` the pairs of level `k`.
pub open spec fn hier_levels(data: Seq<u32>, f: nat, k: nat) -> Seq<MinMaxPair>
    decreases k,
{
    if k == 0 {
        decimate_samples(data, f)
    } else {
        decimate_pairs(hier_levels(data, f, (k - 1) as nat), f)
    }
}

/// Number of pairs in level `k` for `n` samples.
pub open spec fn hier_len(n: nat, f: nat, k: nat) -> nat
    decreases k,
{
    if k == 0 {
        num_chunks(n, f)
    } else {
        num_chunks(hier_len(n, f, (k - 1) as nat), f)
    }
}

/// Every step factor that building the pyramid of `n` samples computes fits
/// in a `usize`: `f^2` always, and `f^(k+3)` once level `k` holds more than
/// `m` pairs.
pub open spec fn step_factors_fit(n: nat, f: nat, m: nat) -> bool {
    forall|e: nat|
        e >= 2 && (e == 2 || hier_len(n, f, (e - 3) as nat) > m) ==> #[trigger] pow(f as int, e)
            <= usize::MAX
}

/// Level `k` has as many pairs as `hier_len` says.
pub proof fn lemma_hier_len(data: Seq<u32>, f: nat, k: nat)
    ensures
        hier_levels(data, f, k).len() == hier_len(data.len(), f, k),
    decreases k,
{
    if k > 0 {
        lemma_hier_len(data, f, (k - 1) as nat);
    }
}

/// Levels never grow in size: level `j` has no more pairs than level `k <= j`.
pub proof fn lemma_hier_len_monotone(n: nat, f: nat, k: nat, j: nat)
    requires
        f >= 1,
        k <= j,
    ensures
        hier_len(n, f, j) <= hier_len(n, f, k),
    decreases j - k,
{
    if j > k {
        lemma_hier_len_monotone(n, f, k, (j - 1) as nat);
        lemma_num_chunks_shrinks(hier_len(n, f, (j - 1) as nat), f);
    }
}

/// Number of bins of `f` items needed to cover `len` items.
fn bins_needed(len: usize, f: usize) -> (r: usize)
    requires
        f >= 1,
    ensures
        r == num_chunks(len as nat, f as nat),
{
    let q = len / f;
    let rem = len % f;
    proof {
        lemma_fundamental_div_mod(len as int, f as int);
        assert(f * q == q * f) by (nonlinear_arith);
        if rem == 0 {
            lemma_fundamental_div_mod_converse((len + f - 1) as int, f as int, q as int, (f - 1) as int);
        } else {
            assert((q + 1) * f == q * f + f) by (nonlinear_arith);
            lemma_fundamental_div_mod_converse(
                (len + f - 1) as int,
                f as int,
                (q + 1) as int,
                (rem - 1) as int,
            );
            assert(q + 1 <= len) by (nonlinear_arith)
                requires
                    len == q * f + rem,
                    rem >= 1,
                    f >= 1,
                    q >= 0,
            ;
        }
    }
    if rem == 0 {
        q
    } else {
        q + 1
    }
}

/// `levels` is the pyramid built from `data` with factor `f` and top size
/// `m`: level `k` has index `k`, step factor `f^(k+1)` and the pairs of
/// `hier_levels(data, f, k)`; every level but the last holds more than `m`
/// pairs and the last holds at most `m`.
pub open spec fn levels_built(levels: Seq<LodLevel>, data: Seq<u32>, f: nat, m: nat) -> bool {
    &&& levels.len() >= 1
    &&& forall|k: int|
        0 <= k < levels.len() ==> {
            &&& (#[trigger] levels[k]).level_index == k
            &&& levels[k].step_factor == pow(f as int, (k + 1) as nat)
            &&& levels[k].pairs@ == hier_levels(data, f, k as nat)
        }
    &&& forall|k: int| 0 <= k < levels.len() - 1 ==> (#[trigger] levels[k]).pairs@.len() > m
    &&& levels.last().pairs@.len() <= m
}

/// Generator of level-of-detail pyramids.
pub struct LodBuilder {
    factor: usize,
    min_top_samples: usize,
}

impl LodBuilder {
    #[verifier::type_invariant]
    spec fn inv(self) -> bool {
        self.factor >= 2 && self.min_top_samples >= 1
    }

    /// Reduction factor between levels.
    pub closed spec fn factor_of(self) -> usize {
        self.factor
    }

    /// Number of pairs at or below which no further level is built.
    pub closed spec fn min_top_of(self) -> usize {
        self.min_top_samples
    }

    /// A builder with factor 10 and a top level of at most 100 pairs.
    pub fn new() -> (r: Self)
        ensures
            r.factor_of() == DEFAULT_LOD_FACTOR,
            r.min_top_of() == 100,
    {
        Self::default()
    }

    /// The same builder with the given factor, raised to at least 2.
    pub fn with_factor(self, factor: usize) -> (r: Self)
        ensures
            r.factor_of() == (if factor < 2 { 2 } else { factor }),
            r.min_top_of() == self.min_top_of(),
    {
        proof {
            use_type_invariant(&self);
        }
        Self { factor: if factor < 2 { 2 } else { factor }, min_top_samples: self.min_top_samples }
    }

    /// The same builder with the given top-level size, raised to at least 1.
    pub fn with_min_top_samples(self, min_top_samples: usize) -> (r: Self)
        ensures
            r.factor_of() == self.factor_of(),
            r.min_top_of() == (if min_top_samples < 1 { 1 } else { min_top_samples }),
    {
        proof {
            use_type_invariant(&self);
        }
        Self {
            factor: self.factor,
            min_top_samples: if min_top_samples < 1 { 1 } else { min_top_samples },
        }
    }

    /// Tells whether every step factor that building the pyramid of `n`
    /// samples computes fits in a `usize`.
    pub fn step_factors_fit_for(&self, n: usize) -> (r: bool)
        ensures
            self.factor_of() >= 2,
            self.min_top_of() >= 1,
            r == step_factors_fit(n as nat, self.factor_of() as nat, self.min_top_of() as nat),
    {
        proof {
            use_type_invariant(self);
            lemma_pow1(self.factor as int);
            lemma_pow_adds(self.factor as int, 1, 1);
        }
        let f = self.factor;
        let m = self.min_top_samples;
        let mut step: usize = match f.checked_mul(f) {
            None => {
                assert(!(pow(f as int, 2) <= usize::MAX));
                return false;
            },
            Some(s) => s,
        };
        let mut len = bins_needed(n, f);
        let ghost mut k: nat = 0;
        while len > m
            invariant
                f == self.factor_of(),
                m == self.min_top_of(),
                f >= 2,
                m >= 1,
                step == pow(f as int, k + 2),
                len == hier_len(n as nat, f as nat, k),
                forall|e: nat| 2 <= e <= k + 2 ==> #[trigger] pow(f as int, e) <= usize::MAX,
            decreases len,
        {
            proof {
                lemma_pow1(f as int);
                lemma_pow_adds(f as int, k + 2, 1);
            }
            step = match step.checked_mul(f) {
                None => {
                    assert(hier_len(n as nat, f as nat, ((k + 3) - 3) as nat) > m);
                    assert(!(pow(f as int, k + 3) <= usize::MAX));
                    return false;
                },
                Some(s) => s,
            };
            proof {
                lemma_num_chunks_shrinks(len as nat, f as nat);
            }
            len = bins_needed(len, f);
            proof {
                k = k + 1;
            }
        }
        assert forall|e: nat|
            e >= 2 && (e == 2 || hier_len(n as nat, f as nat, (e - 3) as nat) > m) implies #[trigger] pow(
            f as int,
            e,
        ) <= usize::MAX by {
            if e > k + 2 {
                lemma_hier_len_monotone(n as nat, f as nat, k, (e - 3) as nat);
            }
        }
        true
    }

    /// Builds the full pyramid of a raw series of `f32` bit patterns: level 0
    /// summarises bins of `factor` samples, each further level bins of
    /// `factor` pairs of the level below, until a level holds at most
    /// `min_top_samples` pairs.
    pub fn build_from_slice(&self, raw_data: &[u32]) -> (r: LodPyramid)
        requires
            raw_data@.len() > 0 ==> step_factors_fit(
                raw_data@.len() as nat,
                self.factor_of() as nat,
                self.min_top_of() as nat,
            ),
        ensures
            self.factor_of() >= 2,
            self.min_top_of() >= 1,
            r.total_samples == raw_data@.len(),
            r.factor == self.factor_of(),
            (r.levels@.len() == 0) == (raw_data@.len() == 0),
            raw_data@.len() > 0 ==> r.levels@[0].pairs@ == decimate_samples(
                raw_data@,
                self.factor_of() as nat,
            ),
            forall|k: int|
                0 <= k < r.levels@.len() - 1 ==> (#[trigger] r.levels@[k + 1]).pairs@ == decimate_pairs(
                    r.levels@[k].pairs@,
                    self.factor_of() as nat,
                ),
            raw_data@.len() > 0 ==> levels_built(
                r.levels@,
                raw_data@,
                self.factor_of() as nat,
                self.min_top_of() as nat,
            ),
    {
        proof {
            use_type_invariant(self);
        }
        let f = self.factor;
        let m = self.min_top_samples;
        let total_samples = raw_data.len();
        let mut pyramid = LodPyramid::new(total_samples, f);
        if total_samples == 0 {
            return pyramid;
        }
        let ghost data = raw_data@;
        let ghost n = data.len();
        let level_0_pairs = reduce_min_max_chunk(raw_data, f);
        proof {
            lemma_pow1(f as int);
        }
        pyramid.levels.push(LodLevel { level_index: 0, step_factor: f, pairs: level_0_pairs });
        proof {
            lemma_pow_adds(f as int, 1, 1);
            assert(pow(f as int, 2) <= usize::MAX);
        }
        let mut current_level_index: usize = 1;
        let mut current_step_factor: usize = f * f;
        loop
            invariant_except_break
                pyramid.levels@.len() == current_level_index,
                current_level_index >= 1,
                current_step_factor == pow(f as int, (current_level_index + 1) as nat),
                forall|k: int| 0 <= k < current_level_index - 1 ==> (#[trigger] pyramid.levels@[k]).pairs@.len() > m,
            invariant
                f == self.factor_of(),
                m == self.min_top_of(),
                f >= 2,
                m >= 1,
                data == raw_data@,
                n == data.len(),
                n > 0,
                step_factors_fit(n, f as nat, m as nat),
                pyramid.total_samples == n,
                pyramid.factor == f,
                pyramid.levels@.len() >= 1,
                forall|k: int|
                    0 <= k < pyramid.levels@.len() ==> {
                        &&& (#[trigger] pyramid.levels@[k]).level_index == k
                        &&& pyramid.levels@[k].step_factor == pow(f as int, (k + 1) as nat)
                        &&& pyramid.levels@[k].pairs@ == hier_levels(data, f as nat, k as nat)
                    },
            ensures
                levels_built(pyramid.levels@, data, f as nat, m as nat),
            decreases pyramid.levels@.last().pairs@.len(),
        {
            let last = pyramid.levels.len() - 1;
            let prev_len = pyramid.levels[last].pairs.len();
            if prev_len <= m {
                break;
            }
            let next_pairs = reduce_min_max_pairs(&pyramid.levels[last].pairs, f);
            proof {
                lemma_num_chunks_shrinks(prev_len as nat, f as nat);
                lemma_hier_len(data, f as nat, last as nat);
            }
            if next_pairs.len() == 0 {
                break;
            }
            let ghost old_levels = pyramid.levels@;
            pyramid.levels.push(
                LodLevel {
                    level_index: current_level_index,
                    step_factor: current_step_factor,
                    pairs: next_pairs,
                },
            );
            proof {
                let e = (current_level_index + 2) as nat;
                assert(hier_len(n, f as nat, (e - 3) as nat) > m);
                assert(pow(f as int, e) <= usize::MAX);
                lemma_pow1(f as int);
                lemma_pow_adds(f as int, (e - 1) as nat, 1);
                assert(pow(f as int, e) == pow(f as int, (e - 1) as nat) * f);
                assert(forall|k: int| 0 <= k < old_levels.len() ==> pyramid.levels@[k] == old_levels[k]);
            }
            current_level_index = pyramid.levels.len();
            current_step_factor = current_step_factor * f;
        }
        pyramid
    }
}

impl Default for LodBuilder {
    fn default() -> (r: Self)
        ensures
            r.factor_of() == DEFAULT_LOD_FACTOR,
            r.min_top_of() == 100,
    {
        Self { factor: DEFAULT_LOD_FACTOR, min_top_samples: 100 }
    }
}

} // verus!
