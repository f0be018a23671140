use std::collections::HashMap;

use vectize::config::{DetailSettings, QualityPreset};
use vectize::quantize::{assign_image_labels_tiled, collect_palette_samples, composite_pixels, quantize};
use vectize::segment::{assign_palette_labels, SegmentationResult};

// The perceptual palette fit (floating point), as the tracer drives it.

fn srgb_to_linear_component(component: u8) -> f64 {
    let value = f64::from(component) / 255.0;
    if value <= 0.04045 {
        value / 12.92
    } else {
        ((value + 0.055) / 1.055).powf(2.4)
    }
}

fn linear_to_srgb_component(component: f64) -> u8 {
    let value = component.clamp(0.0, 1.0);
    let srgb = if value <= 0.003_130_8 {
        value * 12.92
    } else {
        (1.055 * value.powf(1.0 / 2.4)) - 0.055
    };
    (srgb * 255.0).round().clamp(0.0, 255.0) as u8
}

fn srgb_to_oklab(color: [u8; 3]) -> [f64; 3] {
    let r = srgb_to_linear_component(color[0]);
    let g = srgb_to_linear_component(color[1]);
    let b = srgb_to_linear_component(color[2]);
    let l = (0.412_221_470_8 * r) + (0.536_332_536_3 * g) + (0.051_445_992_9 * b);
    let m = (0.211_903_498_2 * r) + (0.680_699_545_1 * g) + (0.107_396_956_6 * b);
    let s = (0.088_302_461_9 * r) + (0.281_718_837_6 * g) + (0.629_978_700_5 * b);
    let l_root = l.max(0.0).cbrt();
    let m_root = m.max(0.0).cbrt();
    let s_root = s.max(0.0).cbrt();
    [
        (0.210_454_255_3 * l_root) + (0.793_617_785_0 * m_root) - (0.004_072_046_8 * s_root),
        (1.977_998_495_1 * l_root) - (2.428_592_205_0 * m_root) + (0.450_593_709_9 * s_root),
        (0.025_904_037_1 * l_root) + (0.782_771_766_2 * m_root) - (0.808_675_766_0 * s_root),
    ]
}

fn lab_distance_sq(a: [f64; 3], b: [f64; 3]) -> f64 {
    let dl = a[0] - b[0];
    let da = a[1] - b[1];
    let db = a[2] - b[2];
    (dl * dl) + (da * da) + (db * db)
}

fn no_farther(pixel: [u8; 3], a: [u8; 3], b: [u8; 3]) -> bool {
    let p = srgb_to_oklab(pixel);
    lab_distance_sq(p, srgb_to_oklab(a)) <= lab_distance_sq(p, srgb_to_oklab(b))
}

fn nearest(pixel: [u8; 3], labs: &[[f64; 3]]) -> usize {
    let p = srgb_to_oklab(pixel);
    labs.iter()
        .enumerate()
        .min_by(|(li, l), (ri, r)| {
            lab_distance_sq(p, **l)
                .total_cmp(&lab_distance_sq(p, **r))
                .then_with(|| li.cmp(ri))
        })
        .map(|(index, _)| index)
        .unwrap_or(0)
}

fn seed_palette(pixels: &[[u8; 3]], max_colors: usize) -> Vec<[u8; 3]> {
    if pixels.is_empty() {
        return vec![[255, 255, 255]];
    }
    let mut histogram: HashMap<[u8; 3], u32> = HashMap::new();
    for &pixel in pixels {
        *histogram.entry(pixel).or_default() += 1;
    }
    let mut entries: Vec<([u8; 3], [f64; 3], u32)> = histogram
        .into_iter()
        .map(|(rgb, count)| (rgb, srgb_to_oklab(rgb), count))
        .collect();
    entries.sort_unstable_by(|l, r| r.2.cmp(&l.2).then_with(|| l.0.cmp(&r.0)));
    if entries.len() <= max_colors {
        return entries.iter().map(|e| e.0).collect();
    }
    let mut palette = vec![entries[0].0];
    let mut selected = vec![false; entries.len()];
    selected[0] = true;
    let mut nearest_distances: Vec<f64> = entries.iter().map(|e| lab_distance_sq(e.1, entries[0].1)).collect();
    while palette.len() < max_colors {
        let Some((next, _)) = entries
            .iter()
            .enumerate()
            .filter(|(i, _)| !selected[*i])
            .max_by(|(li, l), (ri, r)| {
                (nearest_distances[*li] * f64::from(l.2))
                    .total_cmp(&(nearest_distances[*ri] * f64::from(r.2)))
                    .then_with(|| l.2.cmp(&r.2))
                    .then_with(|| r.0.cmp(&l.0))
            })
        else {
            break;
        };
        if nearest_distances[next] <= 1e-12 {
            break;
        }
        selected[next] = true;
        palette.push(entries[next].0);
        for (i, e) in entries.iter().enumerate() {
            nearest_distances[i] = nearest_distances[i].min(lab_distance_sq(e.1, entries[next].1));
        }
    }
    palette
}

fn refine_palette(pixels: &[[u8; 3]], seed: &[[u8; 3]], cycles: usize) -> Vec<[u8; 3]> {
    if pixels.is_empty() || seed.is_empty() || cycles == 0 {
        return seed.to_vec();
    }
    let mut palette = seed.to_vec();
    for _ in 0..cycles {
        let labs: Vec<[f64; 3]> = palette.iter().map(|&c| srgb_to_oklab(c)).collect();
        let mut sums = vec![[0.0f64; 4]; palette.len()];
        for &pixel in pixels {
            let index = nearest(pixel, &labs);
            sums[index][0] += srgb_to_linear_component(pixel[0]);
            sums[index][1] += srgb_to_linear_component(pixel[1]);
            sums[index][2] += srgb_to_linear_component(pixel[2]);
            sums[index][3] += 1.0;
        }
        let next: Vec<[u8; 3]> = palette
            .iter()
            .zip(sums.iter())
            .map(|(&current, sum)| {
                if sum[3] <= f64::EPSILON {
                    current
                } else {
                    [
                        linear_to_srgb_component(sum[0] / sum[3]),
                        linear_to_srgb_component(sum[1] / sum[3]),
                        linear_to_srgb_component(sum[2] / sum[3]),
                    ]
                }
            })
            .collect();
        if next == palette {
            break;
        }
        palette = next;
    }
    palette
}

fn fit_palette(samples: &Vec<[u8; 3]>, budget: usize) -> Vec<[u8; 3]> {
    refine_palette(samples, &seed_palette(samples, budget), 3)
}

fn balanced(color_count: u16) -> DetailSettings {
    DetailSettings {
        quality_preset: QualityPreset::Balanced,
        enable_preprocessing: true,
        enable_denoising: false,
        color_count,
    }
}

fn image_from_fn(width: u32, height: u32, pixel: impl Fn(u32, u32) -> [u8; 4]) -> Vec<[u8; 4]> {
    let mut rgba = Vec::new();
    for y in 0..height {
        for x in 0..width {
            rgba.push(pixel(x, y));
        }
    }
    rgba
}

fn quantize_image(rgba: &Vec<[u8; 4]>, width: u32, height: u32, color_count: u16, tile_size: Option<u32>) -> SegmentationResult {
    quantize(rgba, width, height, &balanced(color_count), 128, tile_size, &fit_palette, &no_farther)
}

#[test]
fn quantize_single_color() {
    let img = vec![[200, 100, 50, 255]; 16];
    let result = quantize_image(&img, 4, 4, 8, None);
    assert!(!result.palette.is_empty());
    assert_eq!(result.labels.len(), 16);
}

#[test]
fn quantize_preserves_minority_color_cluster_after_refinement() {
    let major = [24, 0, 0, 255];
    let accent = [220, 0, 0, 255];
    let img = image_from_fn(10, 10, |x, y| if y == 0 && x < 10 { accent } else { major });

    let result = quantize_image(&img, 10, 10, 2, None);
    let reds: Vec<u8> = result.palette.iter().map(|color| color.r).collect();

    assert!(reds.iter().any(|&red| red <= 40));
    assert!(reds.iter().any(|&red| red >= 200));
    assert_ne!(result.labels[0], result.labels[10]);
}

#[test]
fn quantize_is_deterministic_for_imbalanced_clusters() {
    let img = image_from_fn(12, 12, |x, y| {
        if y < 2 {
            [230, 30, 30, 255]
        } else if x < 10 {
            [20, 30, 30, 255]
        } else {
            [20, 120, 180, 255]
        }
    });

    let first = quantize_image(&img, 12, 12, 3, None);
    let second = quantize_image(&img, 12, 12, 3, None);

    assert_eq!(first.palette, second.palette);
    assert_eq!(first.labels, second.labels);
}

#[test]
fn quantize_palette_stays_within_the_color_count() {
    let img = image_from_fn(16, 16, |x, y| {
        let value = ((x * 17) + (y * 29)) as u8;
        [value, value.wrapping_mul(7), value.wrapping_mul(11), 255]
    });
    for color_count in [0u16, 1, 2, 3, 5, 8] {
        let result = quantize_image(&img, 16, 16, color_count, None);
        assert!(result.palette.len() <= color_count.max(2) as usize);
        assert!(!result.palette.is_empty());
    }
}

#[test]
fn quantize_tiled_matches_untiled_for_small_images() {
    let img = image_from_fn(12, 12, |x, y| {
        let value = ((x * 21) + (y * 13)) as u8;
        [value, value.wrapping_mul(3), value.wrapping_mul(5), 255]
    });

    let untiled = quantize_image(&img, 12, 12, 6, None);
    let tiled = quantize_image(&img, 12, 12, 6, Some(4));

    assert_eq!(untiled.palette, tiled.palette);
    assert_eq!(untiled.labels, tiled.labels);
}

#[test]
fn composite_pixels_whitens_transparent_pixels() {
    let rgba = vec![[1, 2, 3, 255], [4, 5, 6, 0], [7, 8, 9, 128]];
    assert_eq!(composite_pixels(&rgba, 128), vec![[1, 2, 3], [255, 255, 255], [7, 8, 9]]);
}

#[test]
fn collect_palette_samples_keeps_every_pixel_of_small_images() {
    let img = image_from_fn(3, 2, |x, y| [x as u8, y as u8, 0, 255]);
    let samples = collect_palette_samples(&img, 3, 2, 128);
    assert_eq!(samples, composite_pixels(&img, 128));
    assert!(collect_palette_samples(&Vec::new(), 0, 0, 128).is_empty());
}

#[test]
fn collect_palette_samples_strides_through_large_images() {
    // 600 x 600 pixels: 360000 pixels need three pixels per sample, so every
    // second row and column is sampled.
    let img = image_from_fn(600, 600, |x, y| [(x % 256) as u8, (y % 256) as u8, 0, 255]);
    let samples = collect_palette_samples(&img, 600, 600, 128);
    assert_eq!(samples.len(), 300 * 300);
    assert_eq!(samples[1], [2, 0, 0]);
    assert_eq!(samples[300], [0, 2, 0]);
}

#[test]
fn assign_image_labels_tiled_matches_full_frame_assignment() {
    let img = image_from_fn(7, 5, |x, y| {
        let value = ((x * 37) + (y * 11)) as u8;
        [value, 255 - value, value / 2, if x == 3 { 0 } else { 255 }]
    });
    let palette = vec![[0, 0, 0], [255, 255, 255], [200, 40, 90], [30, 220, 60]];
    let full = assign_palette_labels(&composite_pixels(&img, 128), &palette, &no_farther);
    for tile in [0u32, 1, 2, 3, 4, 100] {
        assert_eq!(assign_image_labels_tiled(&img, 7, 5, 128, &palette, tile, &no_farther), full);
    }
}

#[test]
fn quantize_refits_with_flat_art_cap_when_few_labels_dominate() {
    let extras: [[u8; 3]; 8] = [
        [255, 0, 0],
        [0, 255, 0],
        [0, 0, 255],
        [255, 255, 0],
        [255, 0, 255],
        [0, 255, 255],
        [128, 0, 0],
        [0, 128, 0],
    ];
    let mut img: Vec<[u8; 4]> = (0..192u32).map(|v| [v as u8, v as u8, v as u8, 255]).collect();
    for extra in extras {
        img.push([extra[0], extra[1], extra[2], 255]);
    }
    let grays: Vec<[u8; 3]> = (0..12u8).map(|k| [8 + 16 * k, 8 + 16 * k, 8 + 16 * k]).collect();
    let budgets = std::cell::RefCell::new(Vec::new());
    let fitter = |_samples: &Vec<[u8; 3]>, budget: usize| -> Vec<[u8; 3]> {
        budgets.borrow_mut().push(budget);
        let mut palette = grays.clone();
        if budget >= 20 {
            palette.extend_from_slice(&extras);
        }
        palette
    };
    let result = quantize(&img, 20, 10, &balanced(64), 128, None, &fitter, &no_farther);
    assert_eq!(*budgets.borrow(), vec![64, 12]);
    assert_eq!(result.palette.len(), 12);
    assert_eq!(result.labels.len(), 200);
}
