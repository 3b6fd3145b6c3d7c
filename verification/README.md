# petaplot

The data engine of a time-series viewer for very large datasets, written in
Verus: min/max decimation of samples into bins, the level-of-detail pyramid
built from it, the binary `.lod` cache of a pyramid, and the decisions taken
around storage and read-ahead. Every function in `src/` carries a contract
that Verus proves; samples are handled as the bit patterns of IEEE-754
values, so the order and NaN rules of floating point are stated over
integers.

## Layout

- `src/float_bits.rs`: order, equality and NaN tests over `f32`/`f64` bit patterns.
- `src/byte_order.rs`: 32-bit words in either byte order, and the machine's own order.
- `src/wide.rs`: 256-bit whole numbers, for exact level selection on `f32` widths.
- `src/simd.rs`: per-bin min/max summaries of samples and of pairs, run in
  parallel through `rayon` (`src/parallel.rs` holds the trusted calls).
- `src/seeded.rs`: the variant of the sample decimation seeded with the
  finite extremes.
- `src/pyramid.rs`, `src/builder.rs`: the pyramid, level selection for a
  viewport, and its construction.
- `src/cache.rs`: the `.lod` byte format (writer and reader) and cache keys.
- `src/laws.rs`: proofs that span functions, such as the composition of
  decimations that makes each pyramid level a summary of the raw samples.
- `src/storage.rs`, `src/prefetch.rs`: column views, byte buffers, range
  checks and the history of read-ahead requests.
- `src/text.rs`, `src/arith.rs`, `src/error.rs`: number formatting,
  arithmetic lemmas and the error type.
- `tests/`: executable tests of the library.
- `app/`: the desktop application around the library (files, memory maps,
  Parquet reading, GPU rendering and the user interface).
