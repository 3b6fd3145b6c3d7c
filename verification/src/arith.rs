//! Integer facts about bins, divisions and powers used by the proofs.

use vstd::prelude::*;

use vstd::arithmetic::div_mod::{lemma_fundamental_div_mod, lemma_mod_bound, lemma_div_is_ordered};
use vstd::arithmetic::mul::{lemma_mul_inequality, lemma_mul_is_commutative};

verus! {

/// `t * f <= v` exactly when `t <= v / f`.
pub proof fn lemma_mul_le_iff_le_div(t: int, f: int, v: int)
    requires
        t >= 0,
        f > 0,
        v >= 0,
    ensures
        (t * f <= v) <==> (t <= v / f),
{
    lemma_fundamental_div_mod(v, f);
    lemma_mod_bound(v, f);
    lemma_mul_is_commutative(f, v / f);
    if t <= v / f {
        lemma_mul_inequality(t, v / f, f);
    } else {
        lemma_mul_inequality(v / f + 1, t, f);
        assert((v / f + 1) * f == (v / f) * f + f) by (nonlinear_arith);
    }
}

/// A non-empty range needs at least one bin, and with bins of two or more
/// items a range of two or more items needs fewer bins than items.
pub proof fn lemma_num_chunks_shrinks(len: nat, f: nat)
    requires
        f >= 1,
    ensures
        len >= 1 ==> crate::simd::num_chunks(len, f) >= 1,
        len >= 2 && f >= 2 ==> crate::simd::num_chunks(len, f) < len,
        crate::simd::num_chunks(len, f) <= len,
{
    let x = len + f - 1;
    if len >= 1 {
        lemma_mul_le_iff_le_div(1, f as int, x as int);
    }
    if len >= 2 && f >= 2 {
        assert(len * f > len + f - 1) by (nonlinear_arith)
            requires
                len >= 2,
                f >= 2,
        ;
        lemma_mul_le_iff_le_div(len as int, f as int, x as int);
    }
    if len >= 1 {
        assert(len * f >= len + f - 1) by (nonlinear_arith)
            requires
                len >= 1,
                f >= 1,
        ;
        lemma_mul_le_iff_le_div(len as int + 1, f as int, x as int);
        assert((len + 1) * f == len * f + f) by (nonlinear_arith);
    } else {
        lemma_mul_le_iff_le_div(1, f as int, x as int);
    }
}

/// Bin `i` of a range of `n` items exists exactly when it starts inside the range.
pub proof fn lemma_chunk_index(n: nat, b: nat, i: int)
    requires
        b > 0,
        i >= 0,
    ensures
        (i < crate::simd::num_chunks(n, b)) <==> (i * b < n),
{
    lemma_mul_le_iff_le_div(i + 1, b as int, (n + b - 1) as int);
    assert((i + 1) * b == i * b + b) by (nonlinear_arith);
}

} // verus!
