//! Decisions taken around file storage: views of numeric columns, raw byte
//! buffers read as samples, the choice of the signal column and the bounds
//! of mapped byte ranges.

use vstd::prelude::*;

use crate::byte_order::word_at;
use crate::error::TeraError;
use crate::text::{decimal_chars, push_decimal, string_of};
use vstd::bytes::u32_from_le_bytes;
use vstd::slice::slice_subrange;

verus! {

/// A contiguous numeric column of a time series; values are IEEE-754 bit
/// patterns (`u32` for `f32`, `u64` for `f64`).
pub enum TimeSeriesColumn<'a> {
    F32(&'a [u32]),
    F64(&'a [u64]),
    OwningF32(Vec<u32>),
}

impl<'a> TimeSeriesColumn<'a> {
    /// Number of samples in the column.
    pub open spec fn spec_len(&self) -> nat {
        match self {
            TimeSeriesColumn::F32(s) => s@.len(),
            TimeSeriesColumn::F64(s) => s@.len(),
            TimeSeriesColumn::OwningF32(v) => v@.len(),
        }
    }

    /// Number of samples in the column.
    pub fn len(&self) -> (r: usize)
        ensures
            r == self.spec_len(),
    {
        match self {
            TimeSeriesColumn::F32(s) => s.len(),
            TimeSeriesColumn::F64(s) => s.len(),
            TimeSeriesColumn::OwningF32(v) => v.len(),
        }
    }

    /// Whether the column holds no sample.
    pub fn is_empty(&self) -> (r: bool)
        ensures
            r == (self.spec_len() == 0),
    {
        self.len() == 0
    }

    /// The single-precision samples of the column; a double-precision
    /// column has to be converted first.
    pub fn to_f32_slice(&'a self) -> (r: &'a [u32])
        requires
            !(self is F64),
        ensures
            self matches TimeSeriesColumn::F32(s) ==> r@ == s@,
            self matches TimeSeriesColumn::OwningF32(v) ==> r@ == v@,
    {
        match self {
            TimeSeriesColumn::F32(s) => s,
            TimeSeriesColumn::OwningF32(v) => v.as_slice(),
            TimeSeriesColumn::F64(_) => {
                proof {
                    assert(false);
                }
                &[]
            },
        }
    }
}

/// What a column of a record batch holds, as far as extraction cares: the
/// bit patterns of a `Float32` or `Float64` column, or another type.
pub enum ColumnData<'a> {
    Float32(&'a [u32]),
    Float64(&'a [u64]),
    Other,
}

/// Message of a column index past the last column.
pub open spec fn column_index_message(index: nat, available: nat) -> Seq<char> {
    "Índice de columna "@ + decimal_chars(index) + " fuera de rango (columnas disponibles: "@
        + decimal_chars(available) + ")"@
}

/// Message of a column that holds neither `Float32` nor `Float64` values.
pub open spec fn not_float_message(index: nat) -> Seq<char> {
    "La columna en índice "@ + decimal_chars(index) + " no es del tipo Float32 o Float64"@
}

/// Views column `column_index` of a record batch, given by its `columns`,
/// as a series without copying it.
///
/// An index past the last column is an `Arrow` error; a column of another
/// type is an `InvalidLayout` error.
pub fn extract_float_column<'a>(columns: &[ColumnData<'a>], column_index: usize) -> (r: Result<
    TimeSeriesColumn<'a>,
    TeraError,
>)
    ensures
        column_index >= columns@.len() ==> (r matches Err(TeraError::Arrow(msg)) && msg@
            == column_index_message(column_index as nat, columns@.len())),
        column_index < columns@.len() ==> match columns@[column_index as int] {
            ColumnData::Float32(s) => r matches Ok(TimeSeriesColumn::F32(t)) && t@ == s@,
            ColumnData::Float64(s) => r matches Ok(TimeSeriesColumn::F64(t)) && t@ == s@,
            ColumnData::Other => r matches Err(TeraError::InvalidLayout(msg)) && msg@
                == not_float_message(column_index as nat),
        },
{
    if column_index >= columns.len() {
        let mut msg = string_of("Índice de columna ");
        push_decimal(&mut msg, column_index as u64);
        msg.append(" fuera de rango (columnas disponibles: ");
        push_decimal(&mut msg, columns.len() as u64);
        msg.append(")");
        return Err(TeraError::Arrow(msg));
    }
    match &columns[column_index] {
        ColumnData::Float32(s) => Ok(TimeSeriesColumn::F32(*s)),
        ColumnData::Float64(s) => Ok(TimeSeriesColumn::F64(*s)),
        ColumnData::Other => {
            let mut msg = string_of("La columna en índice ");
            push_decimal(&mut msg, column_index as u64);
            msg.append(" no es del tipo Float32 o Float64");
            Err(TeraError::InvalidLayout(msg))
        },
    }
}

/// The samples that a byte buffer holds: one `f32` bit pattern per four
/// bytes, read least significant byte first when `little`, most
/// significant first otherwise.
pub open spec fn samples_of_bytes(b: Seq<u8>, little: bool) -> Seq<u32> {
    Seq::new(b.len() / 4, |i: int| word_at(b, 4 * i, little))
}

/// Message of a byte buffer whose size is not a multiple of four.
pub open spec fn unaligned_size_message(len: nat) -> Seq<char> {
    "El tamaño de los bytes ("@ + decimal_chars(len)
        + ") no es múltiplo de size_of::<f32>() (4 bytes)"@
}

/// Message of a byte buffer whose address is not aligned for `f32` values.
pub open spec fn misaligned_message() -> Seq<char> {
    "El buffer de bytes no tiene la alineación de memoria requerida para f32"@
}

/// Calls `bytemuck::try_cast_slice::<u8, u32>(bytes)`: a view of the same
/// memory as `u32` words, without copying.
///
/// Claimed of `bytemuck`: it refuses a buffer whose length is not a
/// multiple of four; a view it gives has one word per four bytes, each word
/// read in the machine's byte order (little- or big-endian). It also
/// refuses a buffer whose address is not a multiple of four; the address
/// belongs to the running process, so no clause says when that happens.
#[verifier::external_body]
fn view_as_words(bytes: &[u8]) -> (r: Option<&[u32]>)
    ensures
        bytes@.len() % 4 != 0 ==> r is None,
        r matches Some(s) ==> s@ == samples_of_bytes(bytes@, true) || s@ == samples_of_bytes(
            bytes@,
            false,
        ),
{
    match bytemuck::try_cast_slice::<u8, u32>(bytes) {
        Ok(s) => Some(s),
        Err(_) => None,
    }
}

/// The outcome of viewing a buffer of fitting length as `f32` words: the
/// view when there is one, otherwise the `InvalidLayout` error of a buffer
/// whose address is not aligned for `f32` values.
pub fn aligned_view_or_error<'a>(view: Option<&'a [u32]>) -> (r: Result<&'a [u32], TeraError>)
    ensures
        view matches Some(s) ==> (r matches Ok(t) && t@ == s@),
        view is None ==> (r matches Err(TeraError::InvalidLayout(msg)) && msg@ == misaligned_message()),
{
    match view {
        Some(s) => Ok(s),
        None => {
            proof {
                reveal_strlit("El buffer de bytes no tiene la alineación de memoria requerida para f32");
            }
            Err(TeraError::InvalidLayout(
                string_of("El buffer de bytes no tiene la alineación de memoria requerida para f32"),
            ))
        },
    }
}

/// Views a byte buffer as `f32` samples (bit patterns), without copying;
/// each sample is read from four bytes in the machine's byte order.
///
/// A length that is not a multiple of four is an `InvalidLayout` error; an
/// empty buffer gives an empty view. A non-empty buffer of a fitting length
/// is viewed when its address is aligned for 4-byte values, and is an
/// `InvalidLayout` error otherwise; which of the two happens depends on
/// where the buffer lies in memory.
pub fn cast_bytes_to_f32<'a>(bytes: &'a [u8]) -> (r: Result<&'a [u32], TeraError>)
    ensures
        bytes@.len() % 4 != 0 ==> (r matches Err(TeraError::InvalidLayout(msg))
            && msg@ == unaligned_size_message(bytes@.len())),
        bytes@.len() == 0 ==> (r matches Ok(v) && v@.len() == 0),
        bytes@.len() % 4 == 0 && bytes@.len() > 0 ==> (r matches Ok(v) && (v@ == samples_of_bytes(
            bytes@,
            true,
        ) || v@ == samples_of_bytes(bytes@, false))) || (r matches Err(TeraError::InvalidLayout(msg))
            && msg@ == misaligned_message()),
{
    let n = bytes.len();
    if n % 4 != 0 {
        let mut msg = string_of("El tamaño de los bytes (");
        push_decimal(&mut msg, n as u64);
        msg.append(") no es múltiplo de size_of::<f32>() (4 bytes)");
        return Err(TeraError::InvalidLayout(msg));
    }
    if n == 0 {
        let empty: &[u32] = &[];
        assert(empty@.len() == 0);
        return Ok(empty);
    }
    aligned_view_or_error(view_as_words(bytes))
}

/// Type of a column, as far as the signal reader cares.
#[derive(Debug, Clone, Copy, PartialEq, Eq, Structural)]
pub enum ColumnKind {
    Float32,
    Float64,
    Other,
}

/// Picks the signal column of a schema when no name is given: the first
/// `Float32` or `Float64` column, otherwise column 0.
pub fn select_signal_column(kinds: &[ColumnKind]) -> (r: usize)
    ensures
        (exists|j: int| 0 <= j < kinds@.len() && !(kinds@[j] is Other)) ==> {
            &&& r < kinds@.len()
            &&& !(kinds@[r as int] is Other)
            &&& forall|j: int| 0 <= j < r ==> kinds@[j] is Other
        },
        (forall|j: int| 0 <= j < kinds@.len() ==> kinds@[j] is Other) ==> r == 0,
{
    let n = kinds.len();
    let mut i: usize = 0;
    while i < n
        invariant
            n == kinds@.len(),
            i <= n,
            forall|j: int| 0 <= j < i ==> kinds@[j] is Other,
        decreases n - i,
    {
        match kinds[i] {
            ColumnKind::Float32 | ColumnKind::Float64 => {
                return i;
            },
            ColumnKind::Other => {},
        }
        i = i + 1;
    }
    0
}

/// Message of a column name that a schema lacks.
pub open spec fn missing_column_message(name: Seq<char>) -> Seq<char> {
    "Columna '"@ + name + "' no encontrada en el esquema Parquet"@
}

/// `i` is the first position of `names` holding `name`.
pub open spec fn first_named(names: Seq<String>, name: Seq<char>, i: int) -> bool {
    &&& 0 <= i < names.len()
    &&& names[i]@ == name
    &&& forall|j: int| 0 <= j < i ==> (#[trigger] names[j])@ != name
}

/// Index of the signal column of a schema given by the names and kinds of
/// its fields: the first field called `column_name` when a name is given
/// (a `Parquet` error when there is none), otherwise the first `Float32` or
/// `Float64` field, or field 0 when there is none.
pub fn resolve_signal_column(names: &[String], kinds: &[ColumnKind], column_name: Option<&str>) -> (r:
    Result<usize, TeraError>)
    ensures
        column_name matches Some(name) ==> {
            &&& (exists|i: int| first_named(names@, name@, i)) ==> (r matches Ok(i) && first_named(
                names@,
                name@,
                i as int,
            ))
            &&& (forall|j: int| 0 <= j < names@.len() ==> (#[trigger] names@[j])@ != name@) ==> (
            r matches Err(TeraError::Parquet(msg)) && msg@ == missing_column_message(name@))
        },
        column_name is None ==> (r matches Ok(i) && {
            &&& (exists|j: int| 0 <= j < kinds@.len() && !(kinds@[j] is Other)) ==> {
                &&& i < kinds@.len()
                &&& !(kinds@[i as int] is Other)
                &&& forall|j: int| 0 <= j < i ==> kinds@[j] is Other
            }
            &&& (forall|j: int| 0 <= j < kinds@.len() ==> kinds@[j] is Other) ==> i == 0
        }),
{
    match column_name {
        None => Ok(select_signal_column(kinds)),
        Some(name) => {
            let target = string_of(name);
            let n = names.len();
            let mut i: usize = 0;
            while i < n
                invariant
                    n == names@.len(),
                    i <= n,
                    column_name == Some(name),
                    target@ == name@,
                    forall|j: int| 0 <= j < i ==> (#[trigger] names@[j])@ != name@,
                decreases n - i,
            {
                if names[i] == target {
                    assert(first_named(names@, name@, i as int));
                    return Ok(i);
                }
                i = i + 1;
            }
            let mut msg = string_of("Columna '");
            msg.append(name);
            msg.append("' no encontrada en el esquema Parquet");
            Err(TeraError::Parquet(msg))
        },
    }
}

/// One record batch of the signal column, as the reader meets it.
pub enum SignalBatch<'a> {
    /// `f32` values, as bit patterns.
    Float32(&'a [u32]),
    /// `f64` values already narrowed to `f32`, as bit patterns.
    Float64Narrowed(Vec<u32>),
    /// A column of another type, named by the text of that type.
    Unsupported(String),
}

/// Message of a signal column of a type the reader does not take.
pub open spec fn unsupported_type_message(type_text: Seq<char>) -> Seq<char> {
    "Tipo de columna no soportado actualmente para señal: "@ + type_text
}

/// Appends the samples of one batch to the signal read so far; a batch of
/// another type is a `Parquet` error that leaves the signal as it was.
pub fn append_signal_batch(signal: &mut Vec<u32>, batch: SignalBatch) -> (r: Result<(), TeraError>)
    ensures
        match batch {
            SignalBatch::Float32(s) => r is Ok && final(signal)@ == old(signal)@ + s@,
            SignalBatch::Float64Narrowed(v) => r is Ok && final(signal)@ == old(signal)@ + v@,
            SignalBatch::Unsupported(t) => (r matches Err(TeraError::Parquet(msg)) && msg@
                == unsupported_type_message(t@)) && final(signal)@ == old(signal)@,
        },
{
    match batch {
        SignalBatch::Float32(s) => {
            let n = s.len();
            let mut i: usize = 0;
            while i < n
                invariant
                    n == s@.len(),
                    i <= n,
                    signal@ == old(signal)@ + s@.take(i as int),
                decreases n - i,
            {
                signal.push(s[i]);
                assert(s@.take(i + 1) =~= s@.take(i as int).push(s@[i as int]));
                i = i + 1;
            }
            assert(s@.take(n as int) =~= s@);
            Ok(())
        },
        SignalBatch::Float64Narrowed(v) => {
            let mut v = v;
            let ghost added = v@;
            signal.append(&mut v);
            assert(signal@ =~= old(signal)@ + added);
            Ok(())
        },
        SignalBatch::Unsupported(t) => {
            let mut msg = string_of("Tipo de columna no soportado actualmente para señal: ");
            msg.append(t.as_str());
            Err(TeraError::Parquet(msg))
        },
    }
}

/// Message of a byte range outside a mapped file.
pub open spec fn range_message(start: nat, end: nat, len: nat) -> Seq<char> {
    "Rango "@ + decimal_chars(start) + ".."@ + decimal_chars(end)
        + " fuera de los límites del archivo (tamaño total: "@ + decimal_chars(len) + " bytes)"@
}

/// Checks that `start..end` is a range of a file of `file_len` bytes;
/// otherwise an `OutOfRange` error naming the range and the file size.
pub fn check_byte_range(start: usize, end: usize, file_len: usize) -> (r: Result<(), TeraError>)
    ensures
        r is Ok <==> (end <= file_len && start <= end),
        r matches Err(e) ==> (e matches TeraError::OutOfRange(msg) && msg@ == range_message(
            start as nat,
            end as nat,
            file_len as nat,
        )),
{
    if end > file_len || start > end {
        let mut msg = string_of("Rango ");
        push_decimal(&mut msg, start as u64);
        msg.append("..");
        push_decimal(&mut msg, end as u64);
        msg.append(" fuera de los límites del archivo (tamaño total: ");
        push_decimal(&mut msg, file_len as u64);
        msg.append(" bytes)");
        return Err(TeraError::OutOfRange(msg));
    }
    Ok(())
}

/// The part of `offset .. offset + length` that lies in a file of
/// `file_len` bytes, as `(offset, length)`; `None` when it starts past the end.
pub fn advise_window(offset: usize, length: usize, file_len: usize) -> (r: Option<(usize, usize)>)
    ensures
        offset >= file_len ==> r is None,
        offset < file_len ==> (r matches Some((o, l)) && o == offset && l == (if offset + length
            < file_len {
            offset + length
        } else {
            file_len as int
        }) - offset),
{
    let end = offset.saturating_add(length);
    let end = if end < file_len { end } else { file_len };
    if offset >= file_len {
        return None;
    }
    Some((offset, end - offset))
}

/// `c` with ASCII upper-case letters lowered.
pub open spec fn ascii_lower(c: char) -> char {
    if 'A' <= c && c <= 'Z' {
        ((c as int) + 32) as char
    } else {
        c
    }
}

/// `ext` names a Parquet file: `parquet` or `pq`, in any letter case.
pub open spec fn is_parquet_extension_spec(ext: Seq<char>) -> bool {
    let lowered = ext.map_values(|c: char| ascii_lower(c));
    lowered == "parquet"@ || lowered == "pq"@
}

/// `ext` matches `lower` letter for letter, each letter in either case.
fn matches_ignoring_case(ext: &str, lower: &str, upper: &str) -> (r: bool)
    requires
        lower@.len() == upper@.len(),
        forall|i: int|
            0 <= i < lower@.len() ==> 'a' <= #[trigger] lower@[i] <= 'z' && upper@[i] as int
                == lower@[i] as int - 32,
    ensures
        r == (ext@.map_values(|c: char| ascii_lower(c)) == lower@),
{
    let n = ext.unicode_len();
    if n != lower.unicode_len() {
        assert(ext@.map_values(|c: char| ascii_lower(c)).len() != lower@.len());
        return false;
    }
    let mut i: usize = 0;
    while i < n
        invariant
            n == ext@.len(),
            n == lower@.len(),
            lower@.len() == upper@.len(),
            forall|k: int|
                0 <= k < lower@.len() ==> 'a' <= #[trigger] lower@[k] <= 'z' && upper@[k] as int
                    == lower@[k] as int - 32,
            i <= n,
            forall|k: int| 0 <= k < i ==> ascii_lower(#[trigger] ext@[k]) == lower@[k],
        decreases n - i,
    {
        let c = ext.get_char(i);
        if c != lower.get_char(i) && c != upper.get_char(i) {
            assert(ext@.map_values(|c: char| ascii_lower(c))[i as int] != lower@[i as int]);
            return false;
        }
        i = i + 1;
    }
    assert(ext@.map_values(|c: char| ascii_lower(c)) =~= lower@);
    true
}

/// Whether a file extension designates a Parquet file (`parquet` or `pq`,
/// in any letter case).
pub fn is_parquet_extension(ext: &str) -> (r: bool)
    ensures
        r == is_parquet_extension_spec(ext@),
{
    proof {
        reveal_strlit("parquet");
        reveal_strlit("PARQUET");
        reveal_strlit("pq");
        reveal_strlit("PQ");
    }
    matches_ignoring_case(ext, "parquet", "PARQUET") || matches_ignoring_case(ext, "pq", "PQ")
}

} // verus!
