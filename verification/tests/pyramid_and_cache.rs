use petaplot::cache::LodCache;
use petaplot::error::TeraError;
use petaplot::pyramid::{LodLevel, LodPyramid};
use petaplot::simd::MinMaxPair;

fn pair(min: f32, max: f32) -> MinMaxPair {
    MinMaxPair::new(min.to_bits(), max.to_bits())
}

fn level(index: usize, step: usize, pairs: Vec<MinMaxPair>) -> LodLevel {
    LodLevel { level_index: index, step_factor: step, pairs }
}

#[test]
fn test_lod_cache_save_and_load_roundtrip() {
    let mut written_pyramid = LodPyramid::new(100_000, 10);
    written_pyramid.levels.push(level(0, 10, vec![pair(-1.0, 1.0), pair(-0.5, 0.8)]));

    let bytes = LodCache::serialize_pyramid(&written_pyramid);
    assert!(!bytes.is_empty());

    let loaded_pyramid = LodCache::parse_pyramid(&bytes).unwrap();
    assert_eq!(loaded_pyramid.total_samples, 100_000);
    assert_eq!(loaded_pyramid.factor, 10);
    assert_eq!(loaded_pyramid.levels.len(), 1);
    assert_eq!(loaded_pyramid.levels[0].pairs.len(), 2);
    assert_eq!(f32::from_bits(loaded_pyramid.levels[0].pairs[0].min), -1.0);
    assert_eq!(f32::from_bits(loaded_pyramid.levels[0].pairs[0].max), 1.0);
}

#[test]
fn cache_bytes_follow_the_documented_layout() {
    let mut p = LodPyramid::new(7, 3);
    p.levels.push(level(0, 3, vec![pair(1.0, 2.0)]));
    p.levels.push(level(1, 9, vec![]));
    let bytes = LodCache::serialize_pyramid(&p);
    assert_eq!(bytes.len(), 24 + 20 + 8 + 20);
    assert_eq!(&bytes[0..4], b"PTPL");
    assert_eq!(&bytes[4..8], &1u32.to_le_bytes());
    assert_eq!(&bytes[8..16], &7u64.to_le_bytes());
    assert_eq!(&bytes[16..20], &3u32.to_le_bytes());
    assert_eq!(&bytes[20..24], &2u32.to_le_bytes());
    assert_eq!(&bytes[24..28], &0u32.to_le_bytes());
    assert_eq!(&bytes[28..36], &3u64.to_le_bytes());
    assert_eq!(&bytes[36..44], &1u64.to_le_bytes());
    assert_eq!(&bytes[44..48], &1.0f32.to_ne_bytes());
    assert_eq!(&bytes[48..52], &2.0f32.to_ne_bytes());
    assert_eq!(&bytes[52..56], &1u32.to_le_bytes());
    assert_eq!(&bytes[56..64], &9u64.to_le_bytes());
    assert_eq!(&bytes[64..72], &0u64.to_le_bytes());
    let back = LodCache::parse_pyramid(&bytes).unwrap();
    assert_eq!(back.levels.len(), 2);
    assert_eq!(back.levels[1].step_factor, 9);
    assert!(back.levels[1].pairs.is_empty());
}

fn lod_message(r: Result<LodPyramid, TeraError>) -> String {
    match r {
        Err(TeraError::Lod(m)) => m,
        _ => panic!("expected a Lod error"),
    }
}

#[test]
fn cache_rejects_malformed_files() {
    assert_eq!(
        lod_message(LodCache::parse_pyramid(&[0u8; 10])),
        "Archivo de caché `.lod` demasiado pequeño o corrupto"
    );
    let mut bad_magic = LodCache::serialize_pyramid(&LodPyramid::new(1, 2));
    bad_magic[0] = b'X';
    assert_eq!(
        lod_message(LodCache::parse_pyramid(&bad_magic)),
        "Encabezado mágico inválido en archivo de caché `.lod`"
    );
    let mut bad_version = LodCache::serialize_pyramid(&LodPyramid::new(1, 2));
    bad_version[4] = 7;
    assert_eq!(
        lod_message(LodCache::parse_pyramid(&bad_version)),
        "Versión de caché no soportada (7, esperada 1)"
    );
    let mut p = LodPyramid::new(4, 2);
    p.levels.push(level(0, 2, vec![pair(0.0, 1.0), pair(2.0, 3.0)]));
    let full = LodCache::serialize_pyramid(&p);
    assert_eq!(
        lod_message(LodCache::parse_pyramid(&full[..30])),
        "Fin de archivo prematuro al leer nivel LOD"
    );
    assert_eq!(
        lod_message(LodCache::parse_pyramid(&full[..full.len() - 1])),
        "Segmento de datos de nivel LOD incompleto"
    );
}

#[test]
fn cache_reader_raises_small_factors_and_ignores_trailing_bytes() {
    let mut p = LodPyramid::new(5, 2);
    p.factor = 1;
    let mut bytes = LodCache::serialize_pyramid(&p);
    bytes.extend_from_slice(&[1, 2, 3]);
    let back = LodCache::parse_pyramid(&bytes).unwrap();
    assert_eq!(back.factor, 2);
    assert_eq!(back.total_samples, 5);
    assert!(back.levels.is_empty());
}

#[test]
fn cache_key_is_fnv1a_of_path_size_and_mtime() {
    assert_eq!(
        LodCache::compute_cache_key("/data/signal.parquet", 2048, 1_700_000_000),
        "lod_cbf45a2442e8b3e3.lod"
    );
    assert_eq!(LodCache::compute_cache_key("ñ", 0, 0), "lod_70d102315653b809.lod");
    assert_ne!(
        LodCache::compute_cache_key("/data/signal.parquet", 2048, 1_700_000_001),
        LodCache::compute_cache_key("/data/signal.parquet", 2048, 1_700_000_000)
    );
}

#[test]
fn pyramid_basics() {
    let p = LodPyramid::new(10, 1);
    assert_eq!(p.factor, 2);
    assert_eq!(p.num_levels(), 0);
    assert_eq!(p.select_optimal_lod(1_000, px(10.0), px(1.0)), 0);
    assert_eq!(p.global_min_max(), ((-1.0f32).to_bits(), 1.0f32.to_bits()));
}

#[test]
fn get_level_reports_missing_levels() {
    let mut p = LodPyramid::new(10, 10);
    p.levels.push(level(0, 10, vec![pair(0.0, 1.0)]));
    assert_eq!(p.get_level(0).unwrap().step_factor, 10);
    match p.get_level(3) {
        Err(TeraError::Lod(m)) => {
            assert_eq!(m, "Nivel LOD 3 no existe en la pirámide (niveles totales: 1)")
        }
        _ => panic!("expected a Lod error"),
    }
}

#[test]
fn global_min_max_uses_top_level_and_falls_back() {
    let mut p = LodPyramid::new(10, 10);
    p.levels.push(level(0, 10, vec![pair(-100.0, 100.0)]));
    p.levels.push(level(1, 100, vec![pair(-2.0, 3.0), pair(f32::NAN, 4.5), pair(-3.5, 1.0)]));
    assert_eq!(p.global_min_max(), ((-3.5f32).to_bits(), 4.5f32.to_bits()));

    let mut flat = LodPyramid::new(10, 10);
    flat.levels.push(level(0, 10, vec![pair(2.0, 2.0)]));
    assert_eq!(flat.global_min_max(), ((-1.0f32).to_bits(), 1.0f32.to_bits()));

    let mut infinite = LodPyramid::new(10, 10);
    infinite.levels.push(level(0, 10, vec![pair(f32::NEG_INFINITY, 2.0)]));
    assert_eq!(infinite.global_min_max(), ((-1.0f32).to_bits(), 1.0f32.to_bits()));
}

fn px(v: f32) -> u32 {
    v.to_bits()
}

#[test]
fn lod_selection_edges() {
    let mut p = LodPyramid::new(1_000_000, 10);
    for k in 0..4 {
        p.levels.push(level(k, 10usize.pow(k as u32 + 1), vec![]));
    }
    assert_eq!(p.select_optimal_lod(0, px(1000.0), px(1.0)), 0);
    assert_eq!(p.select_optimal_lod(5000, px(0.0), px(1.0)), 0);
    assert_eq!(p.select_optimal_lod(1000, px(1000.0), px(1.0)), 0);
    assert_eq!(p.select_optimal_lod(9_999, px(1000.0), px(1.0)), 0);
    assert_eq!(p.select_optimal_lod(10_000, px(1000.0), px(1.0)), 1);
    assert_eq!(p.select_optimal_lod(100_000, px(500.0), px(2.0)), 2);
    assert_eq!(p.select_optimal_lod(100_000, px(1000.0), px(0.0)), 2);
    assert_eq!(p.select_optimal_lod(usize::MAX, px(1.0), px(1.0)), 3);
    p.factor = 1;
    assert_eq!(p.select_optimal_lod(10_000, px(1000.0), px(1.0)), 3);
    assert_eq!(p.select_optimal_lod(1_000, px(1000.0), px(1.0)), 0);
    p.factor = 0;
    assert_eq!(p.select_optimal_lod(10_000, px(1000.0), px(1.0)), 0);
}

#[test]
fn lod_selection_uses_fractional_and_special_widths() {
    let mut p = LodPyramid::new(1_000_000, 10);
    for k in 0..4 {
        p.levels.push(level(k, 10usize.pow(k as u32 + 1), vec![]));
    }
    assert_eq!(p.select_optimal_lod(10_005, px(1000.7), px(1.0)), 0);
    assert_eq!(p.select_optimal_lod(10_008, px(1000.7), px(1.0)), 1);
    assert_eq!(p.select_optimal_lod(100, px(0.5), px(1.0)), 2);
    assert_eq!(p.select_optimal_lod(100, px(5.0), px(1.0)), 1);
    assert_eq!(p.select_optimal_lod(100, px(50.0), px(1.0)), 0);
    assert_eq!(p.select_optimal_lod(100, px(1e-40), px(1.0)), 3);
    assert_eq!(p.select_optimal_lod(100, px(f32::NAN), px(1.0)), 0);
    assert_eq!(p.select_optimal_lod(100, px(f32::INFINITY), px(1.0)), 0);
    assert_eq!(p.select_optimal_lod(100, px(-3.0), px(1.0)), 0);
    assert_eq!(p.select_optimal_lod(100_000, px(1000.0), px(f32::NAN)), 2);
    assert_eq!(p.select_optimal_lod(100_000, px(1000.0), px(0.25)), 2);
    assert_eq!(p.select_optimal_lod(100_000, px(1000.0), px(f32::INFINITY)), 0);
    assert_eq!(p.select_optimal_lod(100_000, px(1000.0), px(1.5)), 1);
    assert_eq!(p.select_optimal_lod(usize::MAX, px(3.0e38), px(3.0e38)), 0);
}

#[test]
fn cache_pairs_follow_the_requested_byte_order() {
    let mut p = LodPyramid::new(4, 2);
    p.levels.push(level(0, 2, vec![pair(-1.0, 3.0)]));
    let le = LodCache::serialize_pyramid_in(&p, true);
    let be = LodCache::serialize_pyramid_in(&p, false);
    assert_eq!(&le[..44], &be[..44]);
    assert_eq!(&le[44..48], &(-1.0f32).to_le_bytes());
    assert_eq!(&be[44..48], &(-1.0f32).to_be_bytes());
    assert_eq!(&be[48..52], &3.0f32.to_be_bytes());
    let back = LodCache::parse_pyramid_in(&be, false).unwrap();
    assert_eq!(back.levels[0].pairs[0], pair(-1.0, 3.0));
    let crossed = LodCache::parse_pyramid_in(&le, false).unwrap();
    assert_eq!(crossed.levels[0].pairs[0].min, u32::from_be_bytes((-1.0f32).to_le_bytes()));
    let native = LodCache::serialize_pyramid(&p);
    assert!(native == le || native == be);
    assert_eq!(LodCache::parse_pyramid(&native).unwrap().levels[0].pairs[0], pair(-1.0, 3.0));
}
