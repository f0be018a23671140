use vectize::cleanup::{
    bridges_neighbor_colors, cleanup_antialias_fringes, collapse_bridge_palette_labels, label_adjacency,
    neighbor_label_counts,
};
use vectize::components::cleanup_tiny_label_components;
use vectize::config::{tiny_component_cleanup_area_threshold, DetailSettings, QualityPreset};
use vectize::segment::{
    adaptive_color_budget, assign_palette_labels, compact_palette, composite_pixel, deduplicate_palette,
    flat_art_rerun_cap, label_usage, nearest_palette_index, segment_with_palette, select_flat_art_color_cap,
    sort_counts_desc, PaletteAccumulator, PaletteColor,
};

// Perceptual color distance used by the segmenter: squared distance in Oklab.

fn srgb_to_linear_component(component: u8) -> f64 {
    let value = f64::from(component) / 255.0;
    if value <= 0.04045 {
        value / 12.92
    } else {
        ((value + 0.055) / 1.055).powf(2.4)
    }
}

fn srgb_to_oklab(color: [u8; 3]) -> [f64; 3] {
    let r = srgb_to_linear_component(color[0]);
    let g = srgb_to_linear_component(color[1]);
    let b = srgb_to_linear_component(color[2]);
    let l = (0.412_221_470_8 * r) + (0.536_332_536_3 * g) + (0.051_445_992_9 * b);
    let m = (0.211_903_498_2 * r) + (0.680_699_545_1 * g) + (0.107_396_956_6 * b);
    let s = (0.088_302_461_9 * r) + (0.281_718_837_6 * g) + (0.629_978_700_5 * b);
    let l_root = l.max(0.0).cbrt();
    let m_root = m.max(0.0).cbrt();
    let s_root = s.max(0.0).cbrt();
    [
        (0.210_454_255_3 * l_root) + (0.793_617_785_0 * m_root) - (0.004_072_046_8 * s_root),
        (1.977_998_495_1 * l_root) - (2.428_592_205_0 * m_root) + (0.450_593_709_9 * s_root),
        (0.025_904_037_1 * l_root) + (0.782_771_766_2 * m_root) - (0.808_675_766_0 * s_root),
    ]
}

fn oklab_distance_sq(left: [u8; 3], right: [u8; 3]) -> f64 {
    let a = srgb_to_oklab(left);
    let b = srgb_to_oklab(right);
    let dl = a[0] - b[0];
    let da = a[1] - b[1];
    let db = a[2] - b[2];
    (dl * dl) + (da * da) + (db * db)
}

fn no_farther(pixel: [u8; 3], a: [u8; 3], b: [u8; 3]) -> bool {
    oklab_distance_sq(pixel, a) <= oklab_distance_sq(pixel, b)
}

fn high_settings() -> DetailSettings {
    DetailSettings {
        quality_preset: QualityPreset::High,
        enable_preprocessing: true,
        enable_denoising: true,
        color_count: 64,
    }
}

fn balanced_settings() -> DetailSettings {
    DetailSettings {
        quality_preset: QualityPreset::Balanced,
        enable_preprocessing: true,
        enable_denoising: false,
        color_count: 16,
    }
}

#[test]
fn palette_color_hex() {
    let c = PaletteColor { r: 255, g: 0, b: 128 };
    assert_eq!(c.to_hex(), "#ff0080");
}

#[test]
fn palette_color_hex_pads_small_channels() {
    let c = PaletteColor { r: 1, g: 16, b: 171 };
    assert_eq!(c.to_hex(), "#0110ab");
}

#[test]
fn adaptive_color_budget_caps_flat_art_histograms() {
    let mut pixels = vec![[255, 255, 255]; 1_000];

    for (index, pixel) in pixels.iter_mut().enumerate() {
        let bucket = (index % 24) as u8;
        *pixel = [bucket, bucket.saturating_mul(2), bucket.saturating_mul(3)];
    }

    assert_eq!(adaptive_color_budget(&pixels, 64), 24);
}

#[test]
fn adaptive_color_budget_prefers_stronger_cap_for_long_tail_flat_art() {
    let mut pixels = Vec::new();

    for bucket in 0..12u8 {
        pixels.extend(std::iter::repeat_n(
            [bucket, bucket.saturating_mul(5), bucket.saturating_mul(9)],
            90,
        ));
    }

    for bucket in 0..40u8 {
        pixels.push([
            200u8.saturating_add(bucket),
            40u8.saturating_add(bucket),
            10u8.saturating_add(bucket),
        ]);
    }

    assert_eq!(adaptive_color_budget(&pixels, 64), 12);
}

#[test]
fn adaptive_color_budget_preserves_rich_gradients() {
    let pixels: Vec<[u8; 3]> = (0..512)
        .map(|index| {
            let value = (index % 256) as u8;
            [value, value.wrapping_mul(3), value.wrapping_mul(5)]
        })
        .collect();

    assert_eq!(adaptive_color_budget(&pixels, 64), 64);
}

#[test]
fn adaptive_color_budget_keeps_small_requests() {
    let pixels = vec![[10, 20, 30]; 100];
    assert_eq!(adaptive_color_budget(&pixels, 8), 8);
    assert_eq!(adaptive_color_budget(&Vec::new(), 64), 64);
}

#[test]
fn flat_art_rerun_cap_detects_long_tail_palettes() {
    let mut labels = Vec::new();
    labels.extend(std::iter::repeat_n(0u8, 300));
    labels.extend(std::iter::repeat_n(1u8, 280));
    labels.extend(std::iter::repeat_n(2u8, 240));

    for label in 3u8..30 {
        labels.push(label);
    }

    assert_eq!(flat_art_rerun_cap(&labels, 30), Some(12));
}

#[test]
fn flat_art_rerun_cap_uses_standard_cap_when_only_top_twenty_four_dominate() {
    let mut labels = Vec::new();

    for label in 0u8..24 {
        labels.extend(std::iter::repeat_n(label, 30));
    }

    for label in 24u8..44 {
        labels.push(label);
    }

    assert_eq!(flat_art_rerun_cap(&labels, 44), Some(24));
}

#[test]
fn flat_art_rerun_cap_prefers_stronger_cap_for_concentrated_palettes() {
    let mut labels = Vec::new();

    for label in 0u8..12 {
        labels.extend(std::iter::repeat_n(label, 90));
    }

    for label in 12u8..52 {
        labels.push(label);
    }

    assert_eq!(flat_art_rerun_cap(&labels, 52), Some(12));
}

#[test]
fn flat_art_rerun_cap_skips_evenly_distributed_palettes() {
    let mut labels = Vec::new();

    for label in 0u8..32 {
        labels.extend(std::iter::repeat_n(label, 16));
    }

    assert_eq!(flat_art_rerun_cap(&labels, 32), None);
}

#[test]
fn flat_art_rerun_cap_skips_small_palettes() {
    let labels = vec![0u8, 1, 2, 3];
    assert_eq!(flat_art_rerun_cap(&labels, 4), None);
}

#[test]
fn select_flat_art_color_cap_takes_first_qualifying_cap() {
    let mut counts = vec![90u32; 12];
    counts.extend(std::iter::repeat_n(1u32, 40));
    let total: u32 = counts.iter().sum();
    let caps = vec![(12usize, 4u32, 5u32), (24usize, 9u32, 10u32)];
    assert_eq!(select_flat_art_color_cap(&counts, 64, total, &caps), Some(12));
    let strict = vec![(12usize, 99u32, 100u32)];
    assert_eq!(select_flat_art_color_cap(&counts, 64, total, &strict), None);
}

#[test]
fn sort_counts_desc_orders_largest_first() {
    assert_eq!(sort_counts_desc(vec![3, 9, 1, 9, 4]), vec![9, 9, 4, 3, 1]);
}

#[test]
fn label_usage_counts_every_label() {
    let labels = vec![0u8, 2, 2, 1, 2, 0];
    assert_eq!(label_usage(&labels, 4), vec![2, 1, 3, 0]);
}

#[test]
fn compact_palette_drops_unused_entries_and_renumbers() {
    let palette = vec![[1, 1, 1], [2, 2, 2], [3, 3, 3], [4, 4, 4]];
    let mut labels = vec![3u8, 1, 3, 1];
    let compact = compact_palette(&mut labels, &palette);
    assert_eq!(compact, vec![[2, 2, 2], [4, 4, 4]]);
    assert_eq!(labels, vec![1, 0, 1, 0]);
    for (index, &label) in labels.iter().enumerate() {
        let before = [3usize, 1, 3, 1][index];
        assert_eq!(compact[label as usize], palette[before]);
    }
}

#[test]
fn deduplicate_palette_keeps_first_occurrences() {
    let palette = vec![[5, 5, 5], [1, 2, 3], [5, 5, 5], [9, 9, 9], [1, 2, 3]];
    assert_eq!(deduplicate_palette(palette), vec![[5, 5, 5], [1, 2, 3], [9, 9, 9]]);
}

#[test]
fn composite_pixel_applies_alpha_threshold() {
    assert_eq!(composite_pixel([10, 20, 30, 255], 128), [10, 20, 30]);
    assert_eq!(composite_pixel([10, 20, 30, 128], 128), [10, 20, 30]);
    assert_eq!(composite_pixel([10, 20, 30, 127], 128), [255, 255, 255]);
}

#[test]
fn palette_accumulator_rounds_the_mean() {
    let mut acc = PaletteAccumulator::new();
    assert_eq!(acc.average_or([7, 7, 7]), [7, 7, 7]);
    acc.push([10, 0, 255]);
    acc.push([11, 1, 254]);
    assert_eq!(acc.average_or([0, 0, 0]), [11, 1, 255]);
}

#[test]
fn nearest_palette_index_picks_closest_color() {
    let palette = vec![[0, 0, 0], [250, 250, 250], [200, 20, 20]];
    assert_eq!(nearest_palette_index([240, 240, 240], &palette, &no_farther), 1);
    assert_eq!(nearest_palette_index([190, 30, 25], &palette, &no_farther), 2);
    assert_eq!(nearest_palette_index([5, 5, 5], &palette, &no_farther), 0);
}

#[test]
fn assign_palette_labels_labels_every_pixel() {
    let palette = vec![[0, 0, 0], [255, 255, 255]];
    let pixels = vec![[10, 10, 10], [240, 240, 240], [250, 250, 250], [3, 3, 3]];
    assert_eq!(assign_palette_labels(&pixels, &palette, &no_farther), vec![0, 1, 1, 0]);
}

#[test]
fn segment_with_palette_compacts_unused_colors() {
    let palette = vec![[200, 0, 0], [0, 0, 0]];
    let pixels = vec![[0, 0, 0], [3, 3, 3], [0, 0, 0], [5, 4, 4]];
    let result = segment_with_palette(&pixels, 2, 2, &palette, 0, &no_farther);
    assert_eq!(result.width, 2);
    assert_eq!(result.height, 2);
    assert_eq!(result.palette, vec![PaletteColor { r: 0, g: 0, b: 0 }]);
    assert_eq!(result.labels, vec![0, 0, 0, 0]);
}

#[test]
fn bridges_neighbor_colors_detects_blend_shades() {
    assert!(bridges_neighbor_colors([128, 64, 0], [0, 0, 0], [255, 128, 0]));
    assert!(!bridges_neighbor_colors([0, 64, 255], [0, 0, 0], [255, 128, 0]));
    // Too close together to be bridged at all.
    assert!(!bridges_neighbor_colors([5, 5, 5], [0, 0, 0], [10, 10, 10]));
}

#[test]
fn neighbor_label_counts_ranks_by_support() {
    let labels = vec![0u8, 0, 2, 0, 1, 2, 0, 0, 2];
    let counts = neighbor_label_counts(&labels, 3, 3, 1, 1);
    assert_eq!(counts, vec![(0, 5), (2, 3)]);
    let corner = neighbor_label_counts(&labels, 3, 3, 0, 0);
    assert_eq!(corner, vec![(0, 2), (1, 1)]);
}

#[test]
fn label_adjacency_counts_touching_pairs() {
    // 2x2 image: labels 0 1 / 0 1.
    let labels = vec![0u8, 1, 0, 1];
    let adjacency = label_adjacency(&labels, 2, 2, 2);
    assert_eq!(adjacency.len(), 4);
    assert_eq!(adjacency[1], adjacency[2]);
    assert!(adjacency[1] > 0);
    assert_eq!(adjacency[0], 0);
    assert_eq!(adjacency[3], 0);
}

#[test]
fn cleanup_antialias_fringes_reassigns_bridge_shade_pixels() {
    let pixels = vec![
        [0, 0, 0],
        [0, 0, 0],
        [255, 128, 0],
        [0, 0, 0],
        [128, 64, 0],
        [255, 128, 0],
        [0, 0, 0],
        [0, 0, 0],
        [255, 128, 0],
    ];
    let palette = vec![[0, 0, 0], [128, 64, 0], [255, 128, 0]];
    let mut labels = vec![0, 0, 2, 0, 1, 2, 0, 0, 2];

    cleanup_antialias_fringes(&pixels, &mut labels, &palette, 3, 3, &no_farther);
    let compact = compact_palette(&mut labels, &palette);

    assert_eq!(compact.len(), 2);
    assert!(labels.iter().all(|&label| label != 2));
}

#[test]
fn cleanup_antialias_fringes_keeps_non_bridge_accent_pixels() {
    let pixels = vec![
        [0, 0, 0],
        [0, 0, 0],
        [255, 128, 0],
        [0, 0, 0],
        [0, 64, 255],
        [255, 128, 0],
        [0, 0, 0],
        [0, 0, 0],
        [255, 128, 0],
    ];
    let palette = vec![[0, 0, 0], [0, 64, 255], [255, 128, 0]];
    let mut labels = vec![0, 0, 2, 0, 1, 2, 0, 0, 2];

    cleanup_antialias_fringes(&pixels, &mut labels, &palette, 3, 3, &no_farther);
    let compact = compact_palette(&mut labels, &palette);

    assert_eq!(compact.len(), 3);
    assert_eq!(labels[4], 1);
}

#[test]
fn cleanup_antialias_fringes_ignores_two_color_palettes() {
    let pixels = vec![[0, 0, 0], [128, 128, 128], [255, 255, 255], [0, 0, 0]];
    let palette = vec![[0, 0, 0], [255, 255, 255]];
    let mut labels = vec![0, 1, 1, 0];
    cleanup_antialias_fringes(&pixels, &mut labels, &palette, 2, 2, &no_farther);
    assert_eq!(labels, vec![0, 1, 1, 0]);
}

#[test]
fn collapse_bridge_palette_labels_keeps_unrelated_labels() {
    let pixels = vec![
        [0, 0, 0],
        [0, 0, 0],
        [255, 128, 0],
        [0, 0, 0],
        [0, 64, 255],
        [255, 128, 0],
        [0, 0, 0],
        [0, 0, 0],
        [255, 128, 0],
    ];
    let palette = vec![[0, 0, 0], [0, 64, 255], [255, 128, 0]];
    let mut labels = vec![0, 0, 2, 0, 1, 2, 0, 0, 2];
    collapse_bridge_palette_labels(&pixels, &mut labels, &palette, 3, 3, &no_farther);
    assert_eq!(labels, vec![0, 0, 2, 0, 1, 2, 0, 0, 2]);
}

#[test]
fn tiny_component_cleanup_threshold_only_applies_to_rich_high_detail_configs() {
    let high = high_settings();
    let balanced = balanced_settings();

    assert_eq!(tiny_component_cleanup_area_threshold(&high, 24), 32);
    assert_eq!(tiny_component_cleanup_area_threshold(&high, 8), 0);
    assert_eq!(tiny_component_cleanup_area_threshold(&balanced, 24), 0);
}

#[test]
fn cleanup_tiny_label_components_reassigns_small_islands() {
    let mut labels = vec![
        0, 0, 0, 0, 0, //
        0, 1, 1, 0, 0, //
        0, 1, 1, 0, 0, //
        0, 0, 0, 0, 0, //
        0, 0, 0, 0, 0,
    ];
    let pixels = labels
        .iter()
        .map(|&label| if label == 0 { [8, 8, 16] } else { [12, 12, 20] })
        .collect::<Vec<_>>();
    let palette = vec![[8, 8, 16], [12, 12, 20], [200, 80, 120]];

    cleanup_tiny_label_components(&pixels, &mut labels, &palette, 5, 5, 4, &no_farther);

    assert!(labels.iter().all(|&label| label == 0));
}

#[test]
fn cleanup_tiny_label_components_preserves_long_features_above_limit() {
    let mut labels = vec![
        0, 0, 1, 0, 0, //
        0, 0, 1, 0, 0, //
        0, 0, 1, 0, 0, //
        0, 0, 1, 0, 0, //
        0, 0, 1, 0, 0,
    ];
    let pixels = labels
        .iter()
        .map(|&label| if label == 0 { [8, 8, 16] } else { [16, 16, 28] })
        .collect::<Vec<_>>();
    let palette = vec![[8, 8, 16], [16, 16, 28]];

    cleanup_tiny_label_components(&pixels, &mut labels, &palette, 5, 5, 4, &no_farther);

    assert_eq!(labels.iter().filter(|&&label| label == 1).count(), 5);
}

#[test]
fn cleanup_tiny_label_components_zero_limit_changes_nothing() {
    let mut labels = vec![0, 0, 0, 1];
    let pixels = vec![[0, 0, 0], [0, 0, 0], [0, 0, 0], [9, 9, 9]];
    let palette = vec![[0, 0, 0], [9, 9, 9]];
    cleanup_tiny_label_components(&pixels, &mut labels, &palette, 2, 2, 0, &no_farther);
    assert_eq!(labels, vec![0, 0, 0, 1]);
}
