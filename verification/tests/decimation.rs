use petaplot::builder::LodBuilder;
use petaplot::pyramid::{LodLevel, LodPyramid};
use petaplot::simd::{reduce_min_max_chunk, reduce_min_max_pairs, MinMaxPair};

fn bits(values: &[f32]) -> Vec<u32> {
    values.iter().map(|v| v.to_bits()).collect()
}

fn pair(min: f32, max: f32) -> MinMaxPair {
    MinMaxPair::new(min.to_bits(), max.to_bits())
}

#[test]
fn test_reduce_min_max_chunk_simple() {
    let data = bits(&[1.0, 5.0, 2.0, 8.0, 3.0, 0.5, -4.0, 10.0, 7.0]);
    let bin_size = 3;

    let result = reduce_min_max_chunk(&data, bin_size);
    assert_eq!(result.len(), 3);
    assert_eq!(result[0], pair(1.0, 5.0));
    assert_eq!(result[1], pair(0.5, 8.0));
    assert_eq!(result[2], pair(-4.0, 10.0));
}

#[test]
fn test_reduce_min_max_pairs_hierarchical() {
    let pairs = vec![pair(1.0, 5.0), pair(-2.0, 3.0), pair(0.0, 10.0), pair(4.0, 6.0)];

    let result = reduce_min_max_pairs(&pairs, 2);
    assert_eq!(result.len(), 2);
    assert_eq!(result[0], pair(-2.0, 5.0));
    assert_eq!(result[1], pair(0.0, 10.0));
}

#[test]
fn test_lod_builder_pyramid_generation() {
    let raw_data: Vec<u32> = (0..100_000).map(|i| (i as f32).sin().to_bits()).collect();

    let builder = LodBuilder::new().with_factor(10).with_min_top_samples(20);
    let pyramid = builder.build_from_slice(&raw_data);

    assert!(pyramid.num_levels() >= 3);
    assert_eq!(pyramid.levels[0].pairs.len(), 10_000);
    assert_eq!(pyramid.levels[1].pairs.len(), 1_000);
    assert_eq!(pyramid.levels[2].pairs.len(), 100);
}

#[test]
fn test_lod_level_selection() {
    let mut pyramid = LodPyramid::new(1_000_000, 10);
    pyramid.levels.push(LodLevel { level_index: 0, step_factor: 1, pairs: vec![] });
    pyramid.levels.push(LodLevel { level_index: 1, step_factor: 10, pairs: vec![] });
    pyramid.levels.push(LodLevel { level_index: 2, step_factor: 100, pairs: vec![] });
    pyramid.levels.push(LodLevel { level_index: 3, step_factor: 1000, pairs: vec![] });

    let selected = pyramid.select_optimal_lod(100_000, 1000.0f32.to_bits(), 1.0f32.to_bits());
    assert_eq!(selected, 2);

    let selected_zoom = pyramid.select_optimal_lod(500, 1000.0f32.to_bits(), 1.0f32.to_bits());
    assert_eq!(selected_zoom, 0);
}

#[test]
fn reduce_skips_nan_and_summarises_nan_bins_as_zero() {
    let data = bits(&[f32::NAN, 2.0, -1.0, f32::NAN, f32::NAN, f32::NAN, 3.0]);
    let result = reduce_min_max_chunk(&data, 3);
    assert_eq!(result.len(), 3);
    assert_eq!(result[0], pair(-1.0, 2.0));
    assert_eq!(result[1].min, 0.0f32.to_bits());
    assert_eq!(result[1].max, 0.0f32.to_bits());
    assert_eq!(result[2], pair(3.0, 3.0));
}

#[test]
fn reduce_keeps_first_of_equal_zeros_and_infinities() {
    let data = bits(&[-0.0, 0.0, f32::INFINITY, f32::NEG_INFINITY]);
    let result = reduce_min_max_chunk(&data, 2);
    assert_eq!(result[0].min, (-0.0f32).to_bits());
    assert_eq!(result[0].max, (-0.0f32).to_bits());
    assert_eq!(result[1].min, f32::NEG_INFINITY.to_bits());
    assert_eq!(result[1].max, f32::INFINITY.to_bits());
}

#[test]
fn reduce_with_empty_input_or_zero_bin_is_empty() {
    assert!(reduce_min_max_chunk(&[], 4).is_empty());
    assert!(reduce_min_max_chunk(&bits(&[1.0, 2.0]), 0).is_empty());
    assert!(reduce_min_max_pairs(&[], 4).is_empty());
    assert!(reduce_min_max_pairs(&[pair(1.0, 2.0)], 0).is_empty());
}

#[test]
fn reduce_pairs_ignores_pairs_with_nan_bounds() {
    let pairs = vec![pair(f32::NAN, 9.0), pair(1.0, 2.0), pair(f32::NAN, f32::NAN)];
    let result = reduce_min_max_pairs(&pairs, 2);
    assert_eq!(result.len(), 2);
    assert_eq!(result[0], pair(1.0, 2.0));
    assert_eq!(result[1].min, 0.0f32.to_bits());
    assert_eq!(result[1].max, 0.0f32.to_bits());
}

#[test]
fn decimation_composes_across_levels() {
    let data: Vec<u32> = (0..1000).map(|i| ((i as f32) * 0.37).cos().to_bits()).collect();
    let fine = reduce_min_max_chunk(&data, 4);
    let hierarchical = reduce_min_max_pairs(&fine, 5);
    let direct = reduce_min_max_chunk(&data, 20);
    assert_eq!(hierarchical.len(), direct.len());
    for (h, d) in hierarchical.iter().zip(direct.iter()) {
        assert_eq!(h.min, d.min);
        assert_eq!(h.max, d.max);
    }
}

#[test]
fn pyramid_levels_match_direct_decimation_and_step_factors() {
    let raw: Vec<u32> = (0..12_345).map(|i| ((i % 97) as f32 - 48.0).to_bits()).collect();
    let pyramid = LodBuilder::new().with_factor(3).with_min_top_samples(5).build_from_slice(&raw);
    assert_eq!(pyramid.total_samples, 12_345);
    assert_eq!(pyramid.factor, 3);
    let mut step = 3usize;
    for (k, level) in pyramid.levels.iter().enumerate() {
        assert_eq!(level.level_index, k);
        assert_eq!(level.step_factor, step);
        let direct = reduce_min_max_chunk(&raw, step);
        assert_eq!(level.pairs.len(), direct.len());
        for (a, b) in level.pairs.iter().zip(direct.iter()) {
            assert_eq!((a.min, a.max), (b.min, b.max));
        }
        step *= 3;
    }
    let last = pyramid.levels.last().unwrap();
    assert!(last.pairs.len() <= 5);
    for level in &pyramid.levels[..pyramid.levels.len() - 1] {
        assert!(level.pairs.len() > 5);
    }
}

#[test]
fn builder_clamps_factor_and_top_size() {
    let raw = bits(&[1.0, 2.0, 3.0, 4.0, 5.0]);
    let pyramid = LodBuilder::new().with_factor(0).with_min_top_samples(0).build_from_slice(&raw);
    assert_eq!(pyramid.factor, 2);
    let lens: Vec<usize> = pyramid.levels.iter().map(|l| l.pairs.len()).collect();
    assert_eq!(lens, vec![3, 2, 1]);
    let empty = LodBuilder::default().build_from_slice(&[]);
    assert_eq!(empty.num_levels(), 0);
    assert_eq!(empty.factor, 10);
}

#[test]
fn combine_and_identity() {
    let a = pair(-1.0, 2.0);
    let b = pair(0.5, 7.0);
    let c = a.combine(&b);
    assert_eq!(c, pair(-1.0, 7.0));
    assert_eq!(MinMaxPair::identity().combine(&a), a);
    assert_eq!(a.combine(&MinMaxPair::identity()), a);
    let with_nan = pair(f32::NAN, f32::NAN).combine(&a);
    assert_eq!(with_nan, a);
    assert_eq!(MinMaxPair::identity().min, f32::MAX.to_bits());
    assert_eq!(MinMaxPair::identity().max, f32::MIN.to_bits());
}

#[test]
fn pair_equality_follows_float_equality() {
    assert_eq!(pair(0.0, 1.0), pair(-0.0, 1.0));
    assert_ne!(pair(f32::NAN, 1.0), pair(f32::NAN, 1.0));
}

#[test]
fn seeded_decimation_matches_plain_bins() {
    let data = bits(&[1.0, 5.0, 2.0, 8.0, 3.0, 0.5, -4.0, 10.0, 7.0]);
    let result = petaplot::seeded::reduce_min_max_chunk(&data, 3);
    assert_eq!(result, vec![pair(1.0, 5.0), pair(0.5, 8.0), pair(-4.0, 10.0)]);
}

#[test]
fn seeded_decimation_keeps_seed_for_nan_bins_and_infinities() {
    let data = bits(&[f32::NAN, f32::NAN, f32::INFINITY, f32::NEG_INFINITY, 2.0]);
    let result = petaplot::seeded::reduce_min_max_chunk(&data, 2);
    assert_eq!(result.len(), 3);
    assert_eq!(result[0].min, f32::MAX.to_bits());
    assert_eq!(result[0].max, f32::MIN.to_bits());
    assert_eq!(result[1], pair(f32::NEG_INFINITY, f32::INFINITY));
    assert_eq!(result[2], pair(2.0, 2.0));
    let lone_inf = petaplot::seeded::reduce_min_max_chunk(&bits(&[f32::INFINITY]), 4);
    assert_eq!(lone_inf, vec![pair(f32::MAX, f32::INFINITY)]);
    assert!(petaplot::seeded::reduce_min_max_chunk(&[], 5).is_empty());
}

#[test]
fn step_factor_check_follows_the_levels_that_get_built() {
    let default = LodBuilder::new();
    assert!(default.step_factors_fit_for(100_000));
    assert!(default.step_factors_fit_for(usize::MAX));

    let huge = LodBuilder::new().with_factor(usize::MAX);
    assert!(!huge.step_factors_fit_for(1));

    let wide = LodBuilder::new().with_factor(1usize << 21);
    assert!(wide.step_factors_fit_for(200usize << 21));
    assert!(!wide.step_factors_fit_for(200usize << 42));
}

#[test]
fn built_pyramid_range_is_the_signal_range() {
    let raw: Vec<u32> = (0..5_000).map(|i| (((i * 37) % 1001) as f32 - 500.25).to_bits()).collect();
    let pyramid = LodBuilder::new().with_factor(10).build_from_slice(&raw);
    assert_eq!(pyramid.global_min_max(), ((-500.25f32).to_bits(), 499.75f32.to_bits()));

    let with_nan_bin = bits(&[f32::NAN, f32::NAN, 6.0, 7.0]);
    let pyramid = LodBuilder::new().with_factor(2).build_from_slice(&with_nan_bin);
    assert_eq!(pyramid.global_min_max(), (0.0f32.to_bits(), 7.0f32.to_bits()));
}

#[test]
fn every_level_envelopes_the_samples_it_covers() {
    let raw: Vec<f32> = (0..20_000)
        .map(|i| if i % 997 < 3 || (i / 3) % 101 == 0 { f32::NAN } else { ((i * 7919) % 2003) as f32 - 1001.5 })
        .collect();
    let pyramid = LodBuilder::new().with_factor(3).with_min_top_samples(5).build_from_slice(&bits(&raw));
    assert!(pyramid.num_levels() >= 4);
    for level in &pyramid.levels {
        for (j, v) in raw.iter().enumerate() {
            if v.is_nan() {
                continue;
            }
            let p = level.pairs[j / level.step_factor];
            let (lo, hi) = (f32::from_bits(p.min), f32::from_bits(p.max));
            assert!(!lo.is_nan() && !hi.is_nan());
            assert!(lo <= *v && *v <= hi);
        }
    }
}
