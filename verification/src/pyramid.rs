//! The level-of-detail pyramid: successive min/max summaries of a series,
//! each level `factor` times coarser than the one below it.

use vstd::prelude::*;

use crate::arith::lemma_mul_le_iff_le_div;
use crate::error::TeraError;
use crate::float_bits::{
    f32_exponent, f32_fraction, f32_is_finite, f32_lt, is_finite_bits, lt_bits, F32_NEG_INF,
    F32_NEG_ONE, F32_ONE, F32_POS_INF,
};
use crate::simd::{fold_max, fold_min, MinMaxPair};
use crate::wide::{wide_div, wide_ge, wide_shifted, wide_val, Wide};
use vstd::arithmetic::power2::{lemma2_to64_rest, lemma_pow2_adds, pow2};
use crate::text::{decimal_chars, push_decimal, string_of};

verus! {

/// Reduction factor between consecutive levels (10x).
pub const DEFAULT_LOD_FACTOR: usize = 10;

/// One level of detail.
#[derive(Debug, Clone)]
pub struct LodLevel {
    pub level_index: usize,
    pub step_factor: usize,
    pub pairs: Vec<MinMaxPair>,
}

/// The logarithmic level-of-detail pyramid.
#[derive(Debug, Clone)]
pub struct LodPyramid {
    pub total_samples: usize,
    pub factor: usize,
    pub levels: Vec<LodLevel>,
}

/// Number of further levels that fit above a range of `target` bins within
/// `visible` samples: the largest `k` with `target * factor^k <= visible`.
pub open spec fn lod_steps(visible: int, target: int, factor: int) -> nat
    decreases visible - target when target >= 1 && factor >= 2
{
    if target * factor <= visible {
        proof {
            assert(target * factor >= 2 * target) by (nonlinear_arith)
                requires
                    target >= 1,
                    factor >= 2,
            ;
        }
        1 + lod_steps(visible, target * factor, factor)
    } else {
        0
    }
}

/// The integer significand of a finite, non-zero `f32`: its value is
/// `f32_mant(b) * 2^f32_exp2(b)`.
pub open spec fn f32_mant(b: u32) -> int {
    if f32_exponent(b) == 0 {
        f32_fraction(b)
    } else {
        f32_fraction(b) + 0x80_0000
    }
}

/// The power of two that scales `f32_mant(b)`.
pub open spec fn f32_exp2(b: u32) -> int {
    if f32_exponent(b) == 0 {
        -149
    } else {
        f32_exponent(b) - 150
    }
}

/// Oversampling as `max(oversampling, 1.0)` takes it: values above 1.0
/// (`+inf` included) are kept, everything else (NaN too) becomes 1.0.
pub open spec fn effective_oversampling(o: u32) -> u32 {
    if f32_lt(F32_ONE, o) {
        o
    } else {
        F32_ONE
    }
}

/// `v / 2^e` rounded down when `e >= 0`, `v * 2^-e` otherwise: the number
/// of units of `2^e` in `v`, so that `x * 2^e <= v` exactly when
/// `x <= scaled_visible(v, e)` for whole `x`.
pub open spec fn scaled_visible(v: nat, e: int) -> int {
    if e >= 0 {
        (v as int) / (pow2(e as nat) as int)
    } else {
        (v as int) * (pow2((-e) as nat) as int)
    }
}

/// `m * 2^e < v`.
pub open spec fn dyadic_lt(m: int, e: int, v: nat) -> bool {
    if e >= 0 {
        m * pow2(e as nat) < v
    } else {
        m < v * pow2((-e) as nat)
    }
}

/// Level chosen for `visible` samples on a viewport `width` pixels wide
/// with the given oversampling (both `f32` bit patterns):
/// `floor(log_factor(visible / target))` for `target = width *
/// max(oversampling, 1)` bins, computed exactly on the values the bit
/// patterns hold and capped at the top level. It is 0 when there is
/// nothing to show, when the width is not a positive finite value or the
/// target is infinite, and when there are no more samples than bins. A
/// factor of 1 selects the top level once there are more samples than
/// bins, a factor of 0 the bottom level, as the logarithm in those bases does.
pub open spec fn optimal_lod(num_levels: nat, factor: nat, visible: nat, width: u32, oversampling: u32) -> nat {
    let o = effective_oversampling(oversampling);
    let m = f32_mant(width) * f32_mant(o);
    let e = f32_exp2(width) + f32_exp2(o);
    if num_levels == 0 || visible == 0 || !(0 < width < F32_POS_INF) || o == F32_POS_INF || factor
        == 0 {
        0
    } else if factor == 1 {
        if dyadic_lt(m, e, visible) {
            (num_levels - 1) as nat
        } else {
            0
        }
    } else {
        let k = lod_steps(scaled_visible(visible, e), m, factor as int);
        if k < num_levels - 1 {
            k
        } else {
            (num_levels - 1) as nat
        }
    }
}

/// `x * 2^e <= v` for `e >= -172`, compared as whole numbers scaled by `2^172`.
pub open spec fn dyadic_le(x: int, e: int, v: nat) -> bool {
    x * pow2((e + 172) as nat) <= v * pow2(172)
}

/// `x * 2^e < v` for `e >= -172`, compared as whole numbers scaled by `2^172`.
pub open spec fn dyadic_lt_scaled(x: int, e: int, v: nat) -> bool {
    x * pow2((e + 172) as nat) < v * pow2(172)
}

/// A whole `x` fits below `scaled_visible(v, e)` exactly when `x * 2^e <= v`,
/// and `dyadic_lt` says `m * 2^e < v`.
pub proof fn lemma_scaled_visible(x: int, e: int, v: nat)
    requires
        x >= 0,
        e >= -172,
    ensures
        (x <= scaled_visible(v, e)) == dyadic_le(x, e, v),
        dyadic_lt(x, e, v) == dyadic_lt_scaled(x, e, v),
{
    let p = pow2(172) as int;
    vstd::arithmetic::power2::lemma_pow2_pos(172);
    if e >= 0 {
        let q = pow2(e as nat) as int;
        vstd::arithmetic::power2::lemma_pow2_pos(e as nat);
        lemma_pow2_adds(e as nat, 172);
        lemma_mul_le_iff_le_div(x, q, v as int);
        assert((x * q <= v) == (x * q * p <= v * p)) by (nonlinear_arith)
            requires
                p > 0,
        ;
        assert((x * q < v) == (x * q * p < v * p)) by (nonlinear_arith)
            requires
                p > 0,
        ;
        assert(x * pow2((e + 172) as nat) == x * q * p) by (nonlinear_arith)
            requires
                pow2((e + 172) as nat) == q * p,
        ;
    } else {
        let s = (-e) as nat;
        let q = pow2(s) as int;
        let r = pow2((172 - s) as nat) as int;
        vstd::arithmetic::power2::lemma_pow2_pos((172 - s) as nat);
        lemma_pow2_adds(s, (172 - s) as nat);
        assert((x <= v * q) == (x * r <= v * q * r)) by (nonlinear_arith)
            requires
                r > 0,
        ;
        assert((x < v * q) == (x * r < v * q * r)) by (nonlinear_arith)
            requires
                r > 0,
        ;
        assert(v * p == v * q * r) by (nonlinear_arith)
            requires
                p == q * r,
        ;
    }
}

/// The parts of the target of a positive finite width and an effective
/// oversampling that is not infinite: both significands are at least 1, and
/// the exponents are at least -149 and -23.
pub proof fn lemma_target_parts(width: u32, oversampling: u32)
    requires
        0 < width < F32_POS_INF,
        effective_oversampling(oversampling) != F32_POS_INF,
    ensures
        f32_mant(width) >= 1,
        f32_mant(effective_oversampling(oversampling)) >= 1,
        f32_exp2(width) >= -149,
        f32_exp2(effective_oversampling(oversampling)) >= -23,
        f32_mant(width) * f32_mant(effective_oversampling(oversampling)) >= 1,
{
    let o = effective_oversampling(oversampling);
    assert(0x3f80_0000 <= o < F32_POS_INF);
    assert(f32_mant(width) * f32_mant(o) >= 1) by (nonlinear_arith)
        requires
            f32_mant(width) >= 1,
            f32_mant(o) >= 1,
    ;
}

/// Counting the levels of a range shrunk by `f` counts one level less:
/// `lod_steps(v, t * f, f) == lod_steps(v / f, t, f)`.
pub proof fn lemma_lod_steps_div(v: int, t: int, f: int)
    requires
        t >= 1,
        f >= 2,
        v >= 0,
    ensures
        lod_steps(v, t * f, f) == lod_steps(v / f, t, f),
    decreases v - t,
{
    assert(t * f >= 2 * t) by (nonlinear_arith)
        requires
            t >= 1,
            f >= 2,
    ;
    lemma_mul_le_iff_le_div(t * f, f, v);
    if (t * f) * f <= v {
        assert((t * f) * f >= 2 * (t * f)) by (nonlinear_arith)
            requires
                t >= 1,
                f >= 2,
        ;
        lemma_lod_steps_div(v, t * f, f);
    }
}

/// Global `(min, max)` of a top level, given by the lower and upper bounds of
/// its pairs, or `(-1.0, 1.0)` when they do not form a finite, non-empty range.
pub open spec fn range_of_pairs(pairs: Seq<MinMaxPair>) -> (u32, u32) {
    let lo = fold_min(pairs.map_values(|p: MinMaxPair| p.min));
    let hi = fold_max(pairs.map_values(|p: MinMaxPair| p.max));
    if f32_is_finite(lo) && f32_is_finite(hi) && f32_lt(lo, hi) {
        (lo, hi)
    } else {
        (F32_NEG_ONE, F32_ONE)
    }
}

/// Message of a request for a level that the pyramid does not have.
pub open spec fn missing_level_message(index: nat, total: nat) -> Seq<char> {
    "Nivel LOD "@ + decimal_chars(index) + " no existe en la pirámide (niveles totales: "@
        + decimal_chars(total) + ")"@
}

/// `2^e` is at least `2^64` once `e >= 64`.
proof fn lemma_pow2_at_least(e: nat)
    requires
        e >= 64,
    ensures
        pow2(e) >= 0x1_0000_0000_0000_0000,
{
    lemma2_to64_rest();
    lemma_pow2_adds(64, (e - 64) as nat);
    vstd::arithmetic::power2::lemma_pow2_pos((e - 64) as nat);
    assert(pow2(64) * pow2((e - 64) as nat) >= pow2(64)) by (nonlinear_arith)
        requires
            pow2((e - 64) as nat) >= 1,
    ;
}

/// Significand and power of two of a positive finite `f32`.
fn f32_parts(b: u32) -> (r: (u64, i32))
    requires
        0 < b < F32_POS_INF,
    ensures
        r.0 == f32_mant(b),
        r.1 == f32_exp2(b),
        1 <= r.0 < 0x100_0000,
        -149 <= r.1 <= 104,
{
    let ex = b / 0x80_0000;
    let fr = b % 0x80_0000;
    if ex == 0 {
        (fr as u64, -149)
    } else {
        (fr as u64 + 0x80_0000, ex as i32 - 150)
    }
}

impl LodPyramid {
    /// An empty pyramid; the factor is raised to at least 2.
    pub fn new(total_samples: usize, factor: usize) -> (r: Self)
        ensures
            r.total_samples == total_samples,
            r.factor == (if factor < 2 { 2 } else { factor }),
            r.levels@.len() == 0,
    {
        Self { total_samples, factor: if factor < 2 { 2 } else { factor }, levels: Vec::new() }
    }

    /// Number of levels held.
    pub fn num_levels(&self) -> (r: usize)
        ensures
            r == self.levels@.len(),
    {
        self.levels.len()
    }

    /// Index of the level to draw for `visible_samples` samples on a viewport
    /// `screen_width_px` pixels wide with the given oversampling, both `f32`
    /// bit patterns.
    pub fn select_optimal_lod(&self, visible_samples: usize, screen_width_px: u32, oversampling: u32) -> (r: usize)
        ensures
            r == optimal_lod(
                self.levels@.len(),
                self.factor as nat,
                visible_samples as nat,
                screen_width_px,
                oversampling,
            ),
    {
        let n = self.levels.len();
        if n == 0 || visible_samples == 0 || screen_width_px == 0 || screen_width_px >= F32_POS_INF {
            return 0;
        }
        let o = if lt_bits(F32_ONE, oversampling) { oversampling } else { F32_ONE };
        if o == F32_POS_INF || self.factor == 0 {
            return 0;
        }
        let (mw, ew) = f32_parts(screen_width_px);
        let (mo, eo) = f32_parts(o);
        assert(mw * mo < 0x1_0000_0000_0000) by (nonlinear_arith)
            requires
                mw < 0x100_0000,
                mo < 0x100_0000,
        ;
        let m: u64 = mw * mo;
        let e: i32 = ew + eo;
        assert(m >= 1) by (nonlinear_arith)
            requires
                mw >= 1,
                mo >= 1,
                m == mw * mo,
        ;
        let v = visible_samples as u64;
        if self.factor == 1 {
            let below = if e >= 0 {
                if e >= 64 {
                    proof {
                        lemma_pow2_at_least(e as nat);
                        assert(m * pow2(e as nat) >= pow2(e as nat)) by (nonlinear_arith)
                            requires
                                m >= 1,
                        ;
                    }
                    false
                } else {
                    !wide_ge(wide_shifted(m, e as u32), v)
                }
            } else {
                assert(m + 1 <= u64::MAX);
                wide_ge(wide_shifted(v, (-e) as u32), m + 1)
            };
            return if below { n - 1 } else { 0 };
        }
        let f = self.factor as u64;
        let start = if e >= 0 {
            if e >= 64 {
                proof {
                    lemma_pow2_at_least(e as nat);
                    vstd::arithmetic::div_mod::lemma_basic_div(v as int, pow2(e as nat) as int);
                }
                Wide { l3: 0, l2: 0, l1: 0, l0: 0 }
            } else {
                proof {
                    vstd::bits::lemma_u64_shr_is_div(v, e as u64);
                }
                Wide { l3: 0, l2: 0, l1: 0, l0: v >> (e as u64) }
            }
        } else {
            wide_shifted(v, (-e) as u32)
        };
        let ghost total = wide_val(start);
        assert(total == scaled_visible(v as nat, e as int));
        let mut b = start;
        let mut k: usize = 0;
        while k < n - 1
            invariant
                f == self.factor,
                f >= 2,
                m >= 1,
                n == self.levels@.len(),
                n >= 1,
                v == visible_samples,
                visible_samples > 0,
                0 < screen_width_px < F32_POS_INF,
                o == effective_oversampling(oversampling),
                o != F32_POS_INF,
                m == f32_mant(screen_width_px) * f32_mant(o),
                e == f32_exp2(screen_width_px) + f32_exp2(o),
                total == scaled_visible(v as nat, e as int),
                k <= n - 1,
                wide_val(b) >= 0,
                lod_steps(total, m as int, f as int) == k + lod_steps(wide_val(b), m as int, f as int),
            decreases wide_val(b),
        {
            let q = wide_div(b, f);
            proof {
                lemma_mul_le_iff_le_div(m as int, f as int, wide_val(b));
            }
            if !wide_ge(q, m) {
                assert(lod_steps(wide_val(b), m as int, f as int) == 0);
                return k;
            }
            proof {
                assert(wide_val(q) >= m);
                assert((m as int) * (f as int) <= wide_val(b));
                assert((m as int) * (f as int) >= 2) by (nonlinear_arith)
                    requires
                        m >= 1,
                        f >= 2,
                ;
                assert(lod_steps(wide_val(b), m as int, f as int) == 1 + lod_steps(
                    wide_val(b),
                    m as int * f as int,
                    f as int,
                ));
                lemma_lod_steps_div(wide_val(b), m as int, f as int);
                assert(wide_val(q) < wide_val(b)) by (nonlinear_arith)
                    requires
                        wide_val(q) == wide_val(b) / (f as int),
                        wide_val(q) >= 1,
                        f >= 2,
                        wide_val(b) >= 0,
                ;
            }
            b = q;
            k = k + 1;
        }
        k
    }

    /// The level at `level_index`, or a `Lod` error naming the index and the
    /// number of levels.
    pub fn get_level(&self, level_index: usize) -> (r: Result<&LodLevel, TeraError>)
        ensures
            level_index < self.levels@.len() ==> r == Ok::<&LodLevel, TeraError>(&self.levels@[level_index as int]),
            level_index >= self.levels@.len() ==> (r matches Err(TeraError::Lod(msg))
                && msg@ == missing_level_message(level_index as nat, self.levels@.len())),
    {
        if level_index < self.levels.len() {
            Ok(&self.levels[level_index])
        } else {
            let mut msg = string_of("Nivel LOD ");
            push_decimal(&mut msg, level_index as u64);
            msg.append(" no existe en la pirámide (niveles totales: ");
            push_decimal(&mut msg, self.levels.len() as u64);
            msg.append(")");
            Err(TeraError::Lod(msg))
        }
    }

    /// Global `(min, max)` of the signal, read from the top level: the
    /// smallest lower bound and the largest upper bound of its pairs, or
    /// `(-1.0, 1.0)` when the pyramid is empty or they do not form a finite,
    /// non-empty range. Values are `f32` bit patterns.
    pub fn global_min_max(&self) -> (r: (u32, u32))
        ensures
            self.levels@.len() == 0 ==> r == (F32_NEG_ONE, F32_ONE),
            self.levels@.len() > 0 ==> r == range_of_pairs(self.levels@.last().pairs@),
    {
        let n = self.levels.len();
        if n == 0 {
            return (F32_NEG_ONE, F32_ONE);
        }
        let top = &self.levels[n - 1];
        let ghost mins = top.pairs@.map_values(|p: MinMaxPair| p.min);
        let ghost maxs = top.pairs@.map_values(|p: MinMaxPair| p.max);
        let len = top.pairs.len();
        let mut min_val = F32_POS_INF;
        let mut max_val = F32_NEG_INF;
        let mut i: usize = 0;
        while i < len
            invariant
                len == top.pairs@.len(),
                mins == top.pairs@.map_values(|p: MinMaxPair| p.min),
                maxs == top.pairs@.map_values(|p: MinMaxPair| p.max),
                i <= len,
                min_val == fold_min(mins.take(i as int)),
                max_val == fold_max(maxs.take(i as int)),
            decreases len - i,
        {
            let pair = top.pairs[i];
            assert(mins.take(i + 1).drop_last() =~= mins.take(i as int));
            assert(maxs.take(i + 1).drop_last() =~= maxs.take(i as int));
            if lt_bits(pair.min, min_val) {
                min_val = pair.min;
            }
            if lt_bits(max_val, pair.max) {
                max_val = pair.max;
            }
            i = i + 1;
        }
        assert(mins.take(len as int) =~= mins);
        assert(maxs.take(len as int) =~= maxs);
        if is_finite_bits(min_val) && is_finite_bits(max_val) && lt_bits(min_val, max_val) {
            (min_val, max_val)
        } else {
            (F32_NEG_ONE, F32_ONE)
        }
    }
}

} // verus!
