//! Parallel evaluation of per-bin summaries with `rayon`.

use vstd::prelude::*;

use rayon::iter::ParallelIterator;
use rayon::slice::ParallelSlice;

use crate::seeded::{decimate_seeded, summarize_seeded};
use crate::simd::{
    decimate_pairs, decimate_samples, summarize_pairs, summarize_samples, MinMaxPair,
};

verus! {

/// Runs `rayon`'s `par_chunks(bin_size)`, `map` and `collect` over `data`,
/// summarising each chunk with the verified `summarize_samples`.
///
/// Claimed of `rayon`: `par_chunks` cuts the slice into consecutive,
/// non-overlapping chunks of `bin_size` items, the last one possibly shorter,
/// and panics only for a zero chunk size; collecting an indexed parallel
/// iterator into a `Vec` keeps the chunk order.
#[verifier::external_body]
pub(crate) fn par_summarize_samples(data: &[u32], bin_size: usize) -> (r: Vec<MinMaxPair>)
    requires
        bin_size > 0,
    ensures
        r@ == decimate_samples(data@, bin_size as nat),
{
    data.par_chunks(bin_size).map(|chunk| summarize_samples(chunk)).collect()
}

/// Runs `rayon`'s `par_chunks(bin_size)`, `map` and `collect` over `pairs`,
/// summarising each chunk with the verified `summarize_pairs`.
///
/// Claimed of `rayon`: as for `par_summarize_samples`.
#[verifier::external_body]
pub(crate) fn par_summarize_pairs(pairs: &[MinMaxPair], bin_size: usize) -> (r: Vec<MinMaxPair>)
    requires
        bin_size > 0,
    ensures
        r@ == decimate_pairs(pairs@, bin_size as nat),
{
    pairs.par_chunks(bin_size).map(|chunk| summarize_pairs(chunk)).collect()
}

/// Runs `rayon`'s `par_chunks(bin_size)`, `map` and `collect` over `data`,
/// summarising each chunk with the verified `summarize_seeded`.
///
/// Claimed of `rayon`: as for `par_summarize_samples`.
#[verifier::external_body]
pub(crate) fn par_summarize_seeded(data: &[u32], bin_size: usize) -> (r: Vec<MinMaxPair>)
    requires
        bin_size > 0,
    ensures
        r@ == decimate_seeded(data@, bin_size as nat),
{
    data.par_chunks(bin_size).map(|chunk| summarize_seeded(chunk)).collect()
}

} // verus!
