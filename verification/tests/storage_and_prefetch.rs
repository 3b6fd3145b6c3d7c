use std::sync::Arc;

use arrow_array::{Array, Float32Array, Float64Array, Int32Array, RecordBatch};
use arrow_schema::{DataType, Field, Schema};
use petaplot::error::TeraError;
use petaplot::prefetch::{PrefetchHistory, PrefetchRequest};
use petaplot::storage::{
    advise_window, cast_bytes_to_f32, check_byte_range, is_parquet_extension,
    aligned_view_or_error, append_signal_batch, extract_float_column, resolve_signal_column,
    select_signal_column, ColumnData, ColumnKind, SignalBatch, TimeSeriesColumn,
};

fn batch_columns(batch: &RecordBatch) -> Vec<ColumnData<'_>> {
    batch
        .columns()
        .iter()
        .map(|c| {
            if let Some(a) = c.as_any().downcast_ref::<Float32Array>() {
                ColumnData::Float32(bytemuck::cast_slice::<f32, u32>(a.values().as_ref()))
            } else if let Some(a) = c.as_any().downcast_ref::<Float64Array>() {
                ColumnData::Float64(bytemuck::cast_slice::<f64, u64>(a.values().as_ref()))
            } else {
                ColumnData::Other
            }
        })
        .collect()
}

#[test]
fn test_arrow_float32_extraction() {
    let array = Float32Array::from(vec![10.0, 20.0, 30.0]);
    let schema = Arc::new(Schema::new(vec![
        Field::new("signal", DataType::Float32, false),
    ]));

    let batch = RecordBatch::try_new(schema, vec![Arc::new(array)])
        .map_err(|e| TeraError::Arrow(e.to_string()))
        .unwrap();

    let columns = batch_columns(&batch);
    let col = extract_float_column(&columns, 0).unwrap();
    assert_eq!(col.len(), 3);
    assert_eq!(col.to_f32_slice(), &[10.0f32.to_bits(), 20.0f32.to_bits(), 30.0f32.to_bits()]);
}

#[test]
fn arrow_extraction_errors_and_double_columns() {
    let schema = Arc::new(Schema::new(vec![
        Field::new("t", DataType::Float64, false),
        Field::new("n", DataType::Int32, false),
    ]));
    let batch = RecordBatch::try_new(
        schema,
        vec![Arc::new(Float64Array::from(vec![1.5, -2.0])), Arc::new(Int32Array::from(vec![1, 2]))],
    )
    .unwrap();
    let columns = batch_columns(&batch);

    match extract_float_column(&columns, 0) {
        Ok(TimeSeriesColumn::F64(s)) => assert_eq!(s, &[1.5f64.to_bits(), (-2.0f64).to_bits()]),
        _ => panic!("expected a double-precision column"),
    }
    match extract_float_column(&columns, 1) {
        Err(TeraError::InvalidLayout(m)) => {
            assert_eq!(m, "La columna en índice 1 no es del tipo Float32 o Float64")
        }
        _ => panic!("expected an InvalidLayout error"),
    }
    match extract_float_column(&columns, 7) {
        Err(TeraError::Arrow(m)) => {
            assert_eq!(m, "Índice de columna 7 fuera de rango (columnas disponibles: 2)")
        }
        _ => panic!("expected an Arrow error"),
    }
}

#[test]
fn test_cast_bytes_to_f32() {
    let samples: Vec<f32> = vec![1.0, 2.5, -3.14, 42.0, 0.0];
    let bytes: &[u8] = bytemuck::cast_slice(&samples);

    let recovered = cast_bytes_to_f32(bytes).unwrap();
    let recovered: Vec<f32> = recovered.iter().map(|b| f32::from_bits(*b)).collect();
    assert_eq!(recovered, samples);
}

#[test]
fn cast_bytes_rejects_partial_values() {
    match cast_bytes_to_f32(&[0u8; 6]) {
        Err(TeraError::InvalidLayout(m)) => assert_eq!(
            m,
            "El tamaño de los bytes (6) no es múltiplo de size_of::<f32>() (4 bytes)"
        ),
        _ => panic!("expected an InvalidLayout error"),
    }
    assert!(cast_bytes_to_f32(&[]).unwrap().is_empty());
}

#[test]
fn columns_report_length_and_samples() {
    let data = vec![1.0f32.to_bits(), 2.0f32.to_bits()];
    let col = TimeSeriesColumn::F32(&data);
    assert_eq!(col.len(), 2);
    assert!(!col.is_empty());
    assert_eq!(col.to_f32_slice(), &data[..]);
    let owned = TimeSeriesColumn::OwningF32(vec![]);
    assert!(owned.is_empty());
    let wide = [1.0f64.to_bits(); 3];
    assert_eq!(TimeSeriesColumn::F64(&wide).len(), 3);
}

#[test]
fn signal_column_is_first_float_column() {
    let (f32c, f64c, other) = (ColumnKind::Float32, ColumnKind::Float64, ColumnKind::Other);
    assert_eq!(select_signal_column(&[other, other, f64c, f32c]), 2);
    assert_eq!(select_signal_column(&[f32c]), 0);
    assert_eq!(select_signal_column(&[other, other]), 0);
    assert_eq!(select_signal_column(&[]), 0);
}

#[test]
fn byte_ranges_are_checked() {
    assert!(check_byte_range(0, 8, 60).is_ok());
    assert!(check_byte_range(60, 60, 60).is_ok());
    match check_byte_range(10, 70, 60) {
        Err(TeraError::OutOfRange(m)) => assert_eq!(
            m,
            "Rango 10..70 fuera de los límites del archivo (tamaño total: 60 bytes)"
        ),
        _ => panic!("expected an OutOfRange error"),
    }
    assert!(check_byte_range(9, 8, 60).is_err());
}

#[test]
fn advise_window_is_clipped_to_the_file() {
    assert_eq!(advise_window(10, 20, 100), Some((10, 20)));
    assert_eq!(advise_window(90, 20, 100), Some((90, 10)));
    assert_eq!(advise_window(90, usize::MAX, 100), Some((90, 10)));
    assert_eq!(advise_window(100, 5, 100), None);
}

#[test]
fn parquet_extensions_ignore_case() {
    assert!(is_parquet_extension("parquet"));
    assert!(is_parquet_extension("PaRqUeT"));
    assert!(is_parquet_extension("pq"));
    assert!(is_parquet_extension("PQ"));
    assert!(!is_parquet_extension("bin"));
    assert!(!is_parquet_extension(""));
    assert!(!is_parquet_extension("parquets"));
}

fn request(offset: usize, length: usize) -> PrefetchRequest {
    PrefetchRequest {
        offset_bytes: offset,
        length_bytes: length,
        target_time_start: 0.0f64.to_bits(),
        target_time_end: 0.0f64.to_bits(),
    }
}

#[test]
fn prefetch_history_keeps_newest_within_capacity() {
    let mut h = PrefetchHistory::new(2);
    assert_eq!(h.capacity(), 2);
    h.record(request(0, 10));
    h.record(request(10, 10));
    assert!(h.contains(&request(0, 10)));
    h.record(request(20, 10));
    assert_eq!(h.len(), 2);
    assert!(!h.contains(&request(0, 10)));
    assert!(h.contains(&request(10, 10)));
    assert!(h.contains(&request(20, 10)));
    let mut negative_zero = request(20, 10);
    negative_zero.target_time_start = (-0.0f64).to_bits();
    assert!(h.contains(&negative_zero));
}

#[test]
fn prefetch_history_of_zero_capacity_keeps_one() {
    let mut h = PrefetchHistory::new(0);
    h.record(request(0, 1));
    h.record(request(1, 1));
    assert_eq!(h.len(), 1);
    assert!(h.contains(&request(1, 1)));
}

#[test]
fn nan_requests_are_never_found() {
    let mut h = PrefetchHistory::new(4);
    let mut r = request(0, 1);
    r.target_time_end = f64::NAN.to_bits();
    h.record(r);
    assert!(!h.contains(&r));
}

#[test]
fn touched_requests_are_evicted_last() {
    let mut h = PrefetchHistory::new(2);
    h.record(request(0, 10));
    h.record(request(10, 10));
    assert!(h.touch(&request(0, 10)));
    assert_eq!(h.len(), 2);
    h.record(request(20, 10));
    assert!(h.contains(&request(0, 10)));
    assert!(!h.contains(&request(10, 10)));
    assert!(h.contains(&request(20, 10)));
    assert!(!h.touch(&request(30, 10)));
    assert_eq!(h.len(), 2);
}

#[test]
fn cast_bytes_views_aligned_buffers_and_rejects_misaligned_ones() {
    let words: Vec<u32> = vec![1, 2, 3];
    let bytes: &[u8] = bytemuck::cast_slice(&words);
    let view = cast_bytes_to_f32(bytes).unwrap();
    assert_eq!(view, &words[..]);
    match cast_bytes_to_f32(&bytes[1..9]) {
        Err(TeraError::InvalidLayout(m)) => {
            assert_eq!(m, "El buffer de bytes no tiene la alineación de memoria requerida para f32")
        }
        _ => panic!("expected an alignment error"),
    }
    assert!(cast_bytes_to_f32(&bytes[1..1]).unwrap().is_empty());
    match aligned_view_or_error(None) {
        Err(TeraError::InvalidLayout(m)) => {
            assert_eq!(m, "El buffer de bytes no tiene la alineación de memoria requerida para f32")
        }
        _ => panic!("expected an alignment error"),
    }
    assert_eq!(aligned_view_or_error(Some(&[5, 6])).unwrap(), &[5, 6]);
}

#[test]
fn signal_column_is_found_by_name_or_type() {
    let names = vec!["t".to_string(), "strain".to_string(), "strain".to_string()];
    let kinds = vec![ColumnKind::Other, ColumnKind::Float64, ColumnKind::Float32];
    assert_eq!(resolve_signal_column(&names, &kinds, Some("strain")).unwrap(), 1);
    assert_eq!(resolve_signal_column(&names, &kinds, Some("t")).unwrap(), 0);
    assert_eq!(resolve_signal_column(&names, &kinds, None).unwrap(), 1);
    assert_eq!(resolve_signal_column(&names[..1], &kinds[..1], None).unwrap(), 0);
    match resolve_signal_column(&names, &kinds, Some("value")) {
        Err(TeraError::Parquet(m)) => assert_eq!(m, "Columna 'value' no encontrada en el esquema Parquet"),
        _ => panic!("expected a Parquet error"),
    }
}

#[test]
fn signal_batches_are_appended_or_refused() {
    let mut signal = vec![7u32];
    append_signal_batch(&mut signal, SignalBatch::Float32(&[1, 2])).unwrap();
    append_signal_batch(&mut signal, SignalBatch::Float64Narrowed(vec![3])).unwrap();
    assert_eq!(signal, vec![7, 1, 2, 3]);
    match append_signal_batch(&mut signal, SignalBatch::Unsupported("Int32".to_string())) {
        Err(TeraError::Parquet(m)) => {
            assert_eq!(m, "Tipo de columna no soportado actualmente para señal: Int32")
        }
        _ => panic!("expected a Parquet error"),
    }
    assert_eq!(signal, vec![7, 1, 2, 3]);
}
