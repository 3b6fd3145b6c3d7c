//! Errors of the engine, each carrying a human-readable message.

use vstd::prelude::*;

verus! {

/// Failure of a storage, format or pyramid operation.
#[derive(Debug)]
pub enum TeraError {
    /// Input/output failure.
    Io(String),
    /// Memory-mapping failure.
    Mmap(String),
    /// Malformed Apache Arrow data.
    Arrow(String),
    /// Malformed Apache Parquet data.
    Parquet(String),
    /// Malformed or missing level-of-detail data.
    Lod(String),
    /// An index or range outside the data.
    OutOfRange(String),
    /// Data whose size or type does not fit the expected layout.
    InvalidLayout(String),
}

} // verus!
