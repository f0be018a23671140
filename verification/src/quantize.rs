//! Palette quantization of a composited image: sample it, fit a palette to
//! the samples, segment the image with that palette, and fit again with a
//! smaller budget when the result turns out to be flat art.
//!
//! The palette fit itself works on perceptual floating-point colors and is
//! handed in by the caller; everything around it is decided here.

use vstd::prelude::*;

use crate::cleanup::is_color_order;
use crate::config::{tiny_area_limit, tiny_component_cleanup_area_threshold, DetailSettings};
use crate::segment::{
    adaptive_color_budget, dedup_colors, deduplicate_palette, flat_art_rerun_cap, label_used, labels_in_palette,
    lemma_used_below_mono, nearest_index, nearest_labels,
    nearest_palette_index, segment_assigned_labels, segment_with_palette, segmented_labels, segmented_palette,
    spec_adaptive_color_budget, spec_composite_pixel, spec_flat_art_rerun_cap, spec_select_cap, PaletteColor,
    SegmentationResult,
};

verus! {

/// The pixels of an RGBA image with the alpha channel dropped, pixels below
/// the alpha threshold turned white.
pub open spec fn composited(rgba: Seq<[u8; 4]>, alpha_threshold: u8) -> Seq<[u8; 3]> {
    rgba.map_values(|p: [u8; 4]| spec_composite_pixel(p, alpha_threshold))
}

/// Drop the alpha channel of every pixel, turning pixels below the alpha
/// threshold white.
pub fn composite_pixels(rgba: &Vec<[u8; 4]>, alpha_threshold: u8) -> (r: Vec<[u8; 3]>)
    ensures
        r@ == composited(rgba@, alpha_threshold),
{
    let mut pixels: Vec<[u8; 3]> = Vec::new();
    let mut i: usize = 0;
    while i < rgba.len()
        invariant
            i <= rgba@.len(),
            pixels@ == composited(rgba@.subrange(0, i as int), alpha_threshold),
        decreases rgba@.len() - i,
    {
        let p = rgba[i];
        let c = if p[3] >= alpha_threshold {
            [p[0], p[1], p[2]]
        } else {
            [255u8, 255u8, 255u8]
        };
        pixels.push(c);
        proof {
            assert(composited(rgba@.subrange(0, i + 1), alpha_threshold) =~= composited(
                rgba@.subrange(0, i as int),
                alpha_threshold,
            ).push(c));
        }
        i += 1;
    }
    proof {
        assert(rgba@.subrange(0, rgba@.len() as int) =~= rgba@);
    }
    pixels
}

/// Most samples a tile-aware quantization fits its palette to.
pub open spec fn sample_limit() -> int {
    131072
}

/// The smallest `t >= s` whose square reaches `n`.
pub open spec fn ceil_sqrt_from(n: nat, s: nat) -> nat
    decreases n - s,
{
    if s * s >= n || s >= n {
        s
    } else {
        ceil_sqrt_from(n, s + 1)
    }
}

/// The distance between samples along each axis: the smallest positive
/// integer whose square reaches the number of pixels per sample that keeps the
/// samples within the limit.
pub open spec fn sample_stride(total_pixels: int) -> int {
    ceil_sqrt_from(((total_pixels + sample_limit() - 1) / sample_limit()) as nat, 1) as int
}

/// The number of multiples of `s` below `n`.
pub open spec fn grid_count(n: int, s: int) -> int {
    (n + s - 1) / s
}

/// The pixels at every `stride`-th column of every `stride`-th row, row by
/// row, alpha dropped.
pub open spec fn palette_samples(rgba: Seq<[u8; 4]>, w: int, h: int, alpha_threshold: u8) -> Seq<[u8; 3]> {
    if w <= 0 || h <= 0 {
        seq![]
    } else {
        let s = sample_stride(w * h);
        let nx = grid_count(w, s);
        let ny = grid_count(h, s);
        Seq::new(
            (nx * ny) as nat,
            |k: int| spec_composite_pixel(rgba[(k / nx) * s * w + (k % nx) * s], alpha_threshold),
        )
    }
}

proof fn lemma_ceil_sqrt_step(n: nat, s: nat)
    requires
        s >= 1,
        s * s < n,
    ensures
        ceil_sqrt_from(n, s) == ceil_sqrt_from(n, s + 1),
        s + 1 <= n,
{
    assert(s <= s * s) by (nonlinear_arith)
        requires
            s >= 1,
    ;
}

/// The sample stride for an image of `total_pixels` pixels.
fn palette_sample_stride(total_pixels: usize) -> (r: usize)
    ensures
        r as int == sample_stride(total_pixels as int),
        r >= 1,
        r <= total_pixels / 131072 + 1,
{
    let ratio: usize = total_pixels / 131072 + if total_pixels % 131072 == 0 {
        0
    } else {
        1
    };
    proof {
        assert(ratio as int == (total_pixels + 131071) / 131072) by (nonlinear_arith)
            requires
                ratio as int == total_pixels / 131072 + if total_pixels % 131072 == 0 {
                    0int
                } else {
                    1int
                },
        ;
    }
    let mut s: usize = 1;
    loop
        invariant
            1 <= s,
            s <= ratio || s == 1,
            ratio <= total_pixels / 131072 + 1,
            ceil_sqrt_from(ratio as nat, s as nat) == ceil_sqrt_from(ratio as nat, 1),
        ensures
            s as nat == ceil_sqrt_from(ratio as nat, 1),
            1 <= s,
            s <= ratio || s == 1,
        decreases ratio - s,
    {
        if s >= ratio {
            break;
        }
        proof {
            assert((s as int) * (s as int) <= (ratio as int) * (ratio as int)) by (nonlinear_arith)
                requires
                    0 <= s < ratio,
            ;
            assert((ratio as int) * (ratio as int) <= 0xffff_ffff_ffff_ffff * 0xffff_ffff_ffff_ffff) by (nonlinear_arith)
                requires
                    0 <= ratio <= 0xffff_ffff_ffff_ffff,
            ;
        }
        let square = (s as u128) * (s as u128);
        if square >= ratio as u128 {
            break;
        }
        proof {
            lemma_ceil_sqrt_step(ratio as nat, s as nat);
        }
        s += 1;
    }
    s
}

proof fn lemma_grid_count(n: int, s: int, i: int)
    requires
        s >= 1,
        n >= 1,
        i >= 1,
        (i - 1) * s < n,
        n <= i * s,
    ensures
        grid_count(n, s) == i,
{
    assert((n + s - 1) / s == i) by (nonlinear_arith)
        requires
            s >= 1,
            (i - 1) * s < n,
            n <= i * s,
    {
        vstd::arithmetic::div_mod::lemma_fundamental_div_mod_converse(n + s - 1, s, i, n + s - 1 - i * s);
    }
}

proof fn lemma_sample_position(k: int, nx: int, j: int, i: int)
    requires
        nx >= 1,
        0 <= i < nx,
        k == j * nx + i,
    ensures
        k / nx == j,
        k % nx == i,
{
    vstd::arithmetic::div_mod::lemma_fundamental_div_mod_converse(k, nx, j, i);
}

proof fn lemma_sample_index_bound(x: int, y: int, w: int, h: int)
    requires
        0 <= x < w,
        0 <= y < h,
    ensures
        0 <= y * w + x < w * h,
{
    assert(y * w + x < w * h) by (nonlinear_arith)
        requires
            0 <= x < w,
            0 <= y < h,
    ;
    assert(0 <= y * w) by (nonlinear_arith)
        requires
            0 <= x < w,
            0 <= y,
    ;
}

/// The palette samples of a tile-aware quantization: the pixels at every
/// `stride`-th column of every `stride`-th row (see `sample_stride`), row by
/// row, alpha dropped.
pub fn collect_palette_samples(rgba: &Vec<[u8; 4]>, width: u32, height: u32, alpha_threshold: u8) -> (r: Vec<[u8; 3]>)
    requires
        rgba@.len() == width * height,
    ensures
        r@ == palette_samples(rgba@, width as int, height as int, alpha_threshold),
        r@.len() <= rgba@.len(),
{
    if width == 0 || height == 0 {
        return Vec::new();
    }
    let total = rgba.len();
    let s = palette_sample_stride(total);
    let w = width as u64;
    let h = height as u64;
    let step = s as u64;
    let ghost nx = grid_count(w as int, s as int);
    let ghost ny = grid_count(h as int, s as int);
    let ghost spec_s = sample_stride(w * h);
    let mut samples: Vec<[u8; 3]> = Vec::new();
    let mut y: u64 = 0;
    let ghost mut j: int = 0;
    proof {
        lemma_grid_count_pos(w as int, s as int);
    }
    while y < h
        invariant
            rgba@.len() == w * h,
            w == width,
            h == height,
            w >= 1,
            h >= 1,
            s as int == spec_s,
            spec_s == sample_stride(w * h),
            step == s,
            s >= 1,
            s <= total / 131072 + 1,
            total == rgba@.len(),
            nx == grid_count(w as int, s as int),
            nx >= 1,
            ny == grid_count(h as int, s as int),
            y == j * s,
            0 <= j,
            (j - 1) * s < h,
            samples@.len() == j * nx,
            forall|k: int|
                0 <= k < j * nx ==> #[trigger] samples@[k] == spec_composite_pixel(
                    rgba@[(k / nx) * s * w + (k % nx) * s],
                    alpha_threshold,
                ),
        decreases (if y <= h { h - y } else { 0 }),
    {
        let mut x: u64 = 0;
        let ghost mut i: int = 0;
        while x < w
            invariant
                rgba@.len() == w * h,
                w == width,
                h == height,
                w >= 1,
                step == s,
                s >= 1,
                nx == grid_count(w as int, s as int),
                nx >= 1,
                y == j * s,
                y < h,
                x == i * s,
                s <= total / 131072 + 1,
                total == rgba@.len(),
                0 <= i,
                (i - 1) * s < w,
                i <= nx,
                samples@.len() == j * nx + i,
                forall|k: int|
                    0 <= k < j * nx + i ==> #[trigger] samples@[k] == spec_composite_pixel(
                        rgba@[(k / nx) * s * w + (k % nx) * s],
                        alpha_threshold,
                    ),
            decreases (if x <= w { w - x } else { 0 }),
        {
            proof {
                lemma_sample_index_bound(x as int, y as int, w as int, h as int);
                if i >= nx {
                    assert(i * s >= w) by (nonlinear_arith)
                        requires
                            nx == (w + s - 1) / (s as int),
                            i >= nx,
                            s >= 1,
                    {
                        vstd::arithmetic::div_mod::lemma_fundamental_div_mod(w + s - 1, s as int);
                    }
                }
            }
            let index = (y * w + x) as usize;
            let p = rgba[index];
            let c = if p[3] >= alpha_threshold {
                [p[0], p[1], p[2]]
            } else {
                [255u8, 255u8, 255u8]
            };
            samples.push(c);
            proof {
                let k = j * nx + i;
                lemma_sample_position(k, nx, j, i);
                assert(k / nx * s * w + (k % nx) * s == y * w + x) by (nonlinear_arith)
                    requires
                        k / nx == j,
                        k % nx == i,
                        y == j * s,
                        x == i * s,
                ;
                assert(samples@[k] == spec_composite_pixel(rgba@[(k / nx) * s * w + (k % nx) * s], alpha_threshold));
            }
            x = x + step;
            proof {
                i = i + 1;
                assert(x == i * s) by (nonlinear_arith)
                    requires
                        x == (i - 1) * s + s,
                ;
            }
        }
        proof {
            if i == 0 {
                assert(false);
            }
            lemma_grid_count(w as int, s as int, i);
        }
        y = y + step;
        proof {
            j = j + 1;
            assert(y == j * s) by (nonlinear_arith)
                requires
                    y == (j - 1) * s + s,
            ;
            assert(samples@.len() == j * nx) by (nonlinear_arith)
                requires
                    samples@.len() == (j - 1) * nx + nx,
            ;
        }
    }
    proof {
        if j == 0 {
            assert(false);
        }
        lemma_grid_count(h as int, s as int, j);
        let ps = palette_samples(rgba@, width as int, height as int, alpha_threshold);
        assert(j * nx == nx * ny) by (nonlinear_arith)
            requires
                j == ny,
        ;
        assert(ps.len() == samples@.len());
        assert forall|k: int| 0 <= k < ps.len() implies #[trigger] ps[k] == samples@[k] by {
        }
        assert(samples@ =~= ps);
        lemma_grid_count_le(w as int, s as int);
        lemma_grid_count_le(h as int, s as int);
        assert(nx * ny <= (w as int) * (h as int)) by (nonlinear_arith)
            requires
                0 <= nx <= w,
                0 <= ny <= h,
        ;
    }
    samples
}

proof fn lemma_grid_count_le(n: int, s: int)
    requires
        n >= 0,
        s >= 1,
    ensures
        grid_count(n, s) <= n,
{
    assert((n + s - 1) / s <= n) by (nonlinear_arith)
        requires
            n >= 0,
            s >= 1,
    {
        vstd::arithmetic::div_mod::lemma_fundamental_div_mod(n + s - 1, s);
        if n >= 1 {
            assert(n * s >= n + s - 1) by (nonlinear_arith)
                requires
                    n >= 1,
                    s >= 1,
            ;
        }
    }
}

proof fn lemma_grid_count_pos(n: int, s: int)
    requires
        n >= 1,
        s >= 1,
    ensures
        grid_count(n, s) >= 1,
{
    assert((n + s - 1) / s >= 1) by (nonlinear_arith)
        requires
            n >= 1,
            s >= 1,
    {
        vstd::arithmetic::div_mod::lemma_fundamental_div_mod(n + s - 1, s);
    }
}

/// Index of pixel `(x, y)` in a row-major image `w` pixels wide.
pub open spec fn cell(w: int, x: int, y: int) -> int {
    y * w + x
}

/// The label a pixel of the image gets: the index of the palette color
/// nearest to it, alpha dropped.
pub open spec fn nearest_image_label<F: Fn([u8; 3], [u8; 3], [u8; 3]) -> bool>(
    f: F,
    rgba: Seq<[u8; 4]>,
    alpha_threshold: u8,
    palette: Seq<[u8; 3]>,
    i: int,
) -> u8 {
    nearest_index(f, spec_composite_pixel(rgba[i], alpha_threshold), palette, palette.len() as int) as u8
}

proof fn lemma_cell_coords(w: int, x: int, y: int)
    requires
        0 <= x < w,
        0 <= y,
    ensures
        cell(w, x, y) / w == y,
        cell(w, x, y) % w == x,
{
    vstd::arithmetic::div_mod::lemma_fundamental_div_mod_converse(cell(w, x, y), w, y, x);
}

proof fn lemma_cell_bound(w: int, h: int, x: int, y: int)
    requires
        0 <= x < w,
        0 <= y < h,
    ensures
        0 <= cell(w, x, y) < w * h,
{
    lemma_sample_index_bound(x, y, w, h);
}

/// Label every pixel of an RGBA image with its nearest palette color, tile by
/// tile (tiles of at least two by two pixels). The result is the same as
/// labeling the pixels in order.
pub fn assign_image_labels_tiled<F: Fn([u8; 3], [u8; 3], [u8; 3]) -> bool>(
    rgba: &Vec<[u8; 4]>,
    width: u32,
    height: u32,
    alpha_threshold: u8,
    palette: &Vec<[u8; 3]>,
    tile_size: u32,
    no_farther_fn: &F,
) -> (r: Vec<u8>)
    requires
        is_color_order(*no_farther_fn),
        rgba@.len() == width * height,
        palette@.len() <= 256,
    ensures
        r@ == nearest_labels(*no_farther_fn, composited(rgba@, alpha_threshold), palette@),
{
    let ghost f = *no_farther_fn;
    let w = width as u64;
    let h = height as u64;
    let ts: u64 = if tile_size < 2 {
        2
    } else {
        tile_size as u64
    };
    let n = rgba.len();
    let mut labels: Vec<u8> = Vec::new();
    let mut i: usize = 0;
    while i < n
        invariant
            i <= n,
            labels@.len() == i,
        decreases n - i,
    {
        labels.push(0);
        i += 1;
    }
    let mut tile_y: u64 = 0;
    while tile_y < h
        invariant
            is_color_order(f),
            f == *no_farther_fn,
            n == rgba@.len(),
            n == w * h,
            w == width,
            h == height,
            ts >= 2,
            ts <= 0xffff_ffff,
            labels@.len() == n,
            forall|px: int, py: int|
                0 <= px < w && 0 <= py < h && py < tile_y ==> #[trigger] labels@[cell(w as int, px, py)]
                    == nearest_image_label(f, rgba@, alpha_threshold, palette@, cell(w as int, px, py)),
        decreases (if tile_y <= h { h - tile_y } else { 0 }),
    {
        let end_y: u64 = if tile_y + ts < h {
            tile_y + ts
        } else {
            h
        };
        let mut tile_x: u64 = 0;
        while tile_x < w
            invariant
                is_color_order(f),
                f == *no_farther_fn,
                n == rgba@.len(),
                n == w * h,
                w == width,
                h == height,
                ts >= 2,
                ts <= 0xffff_ffff,
                tile_y < end_y <= h,
                end_y == tile_y + ts || end_y == h,
                labels@.len() == n,
                forall|px: int, py: int|
                    0 <= px < w && 0 <= py < h && (py < tile_y || (tile_y <= py < end_y && px < tile_x))
                        ==> #[trigger] labels@[cell(w as int, px, py)] == nearest_image_label(
                        f,
                        rgba@,
                        alpha_threshold,
                        palette@,
                        cell(w as int, px, py),
                    ),
            decreases (if tile_x <= w { w - tile_x } else { 0 }),
        {
            let end_x: u64 = if tile_x + ts < w {
                tile_x + ts
            } else {
                w
            };
            let mut y: u64 = tile_y;
            while y < end_y
                invariant
                    is_color_order(f),
                    f == *no_farther_fn,
                    n == rgba@.len(),
                    n == w * h,
                    w == width,
                    h == height,
                    ts >= 2,
                    ts <= 0xffff_ffff,
                    tile_y < end_y <= h,
                    tile_x < end_x <= w,
                    end_x == tile_x + ts || end_x == w,
                    tile_y <= y <= end_y,
                    labels@.len() == n,
                    forall|px: int, py: int|
                        0 <= px < w && 0 <= py < h && (py < tile_y || (tile_y <= py < end_y && px < tile_x) || (
                        tile_y <= py < y && tile_x <= px < end_x)) ==> #[trigger] labels@[cell(w as int, px, py)]
                            == nearest_image_label(f, rgba@, alpha_threshold, palette@, cell(w as int, px, py)),
                decreases end_y - y,
            {
                let mut x: u64 = tile_x;
                while x < end_x
                    invariant
                        is_color_order(f),
                        f == *no_farther_fn,
                        n == rgba@.len(),
                        n == w * h,
                        w == width,
                        h == height,
                        tile_y < end_y <= h,
                        tile_x < end_x <= w,
                        tile_y <= y < end_y,
                        tile_x <= x <= end_x,
                        labels@.len() == n,
                        forall|px: int, py: int|
                            0 <= px < w && 0 <= py < h && (py < tile_y || (tile_y <= py < end_y && px < tile_x) || (
                            tile_y <= py < y && tile_x <= px < end_x) || (py == y && tile_x <= px < x)) ==> #[trigger] labels@[cell(
                                w as int,
                                px,
                                py,
                            )] == nearest_image_label(f, rgba@, alpha_threshold, palette@, cell(w as int, px, py)),
                    decreases end_x - x,
                {
                    proof {
                        lemma_cell_bound(w as int, h as int, x as int, y as int);
                    }
                    let index = (y * w + x) as usize;
                    let p = rgba[index];
                    let c = if p[3] >= alpha_threshold {
                        [p[0], p[1], p[2]]
                    } else {
                        [255u8, 255u8, 255u8]
                    };
                    let best = nearest_palette_index(c, palette, no_farther_fn);
                    proof {
                        if palette@.len() == 0 {
                            assert(best == 0) by {
                                assert(nearest_index(f, c, palette@, 0) == 0);
                            }
                        }
                    }
                    let label = best as u8;
                    let ghost before = labels@;
                    labels.set(index, label);
                    proof {
                        assert(labels@[index as int] == nearest_image_label(f, rgba@, alpha_threshold, palette@, index as int));
                        assert forall|px: int, py: int|
                            0 <= px < w && 0 <= py < h && (py < tile_y || (tile_y <= py < end_y && px < tile_x) || (
                            tile_y <= py < y && tile_x <= px < end_x) || (py == y && tile_x <= px < x + 1)) implies #[trigger] labels@[cell(
                                w as int,
                                px,
                                py,
                            )] == nearest_image_label(f, rgba@, alpha_threshold, palette@, cell(w as int, px, py)) by {
                            if px != x || py != y {
                                lemma_cell_coords(w as int, px, py);
                                lemma_cell_coords(w as int, x as int, y as int);
                                lemma_cell_bound(w as int, h as int, px, py);
                                assert(cell(w as int, px, py) != index);
                                assert(labels@[cell(w as int, px, py)] == before[cell(w as int, px, py)]);
                            }
                        }
                    }
                    x += 1;
                }
                y += 1;
            }
            tile_x = end_x;
        }
        tile_y = end_y;
    }
    proof {
        let target = nearest_labels(f, composited(rgba@, alpha_threshold), palette@);
        assert forall|k: int| 0 <= k < n implies #[trigger] labels@[k] == target[k] by {
            let px = k % (w as int);
            let py = k / (w as int);
            vstd::arithmetic::div_mod::lemma_fundamental_div_mod(k, w as int);
            assert(py < h) by (nonlinear_arith)
                requires
                    py == k / (w as int),
                    k < w * h,
                    w > 0,
                    k >= 0,
            {
                vstd::arithmetic::div_mod::lemma_fundamental_div_mod(k, w as int);
            }
            assert(0 <= py) by (nonlinear_arith)
                requires
                    py == k / (w as int),
                    w > 0,
                    k >= 0,
            ;
            assert(py * (w as int) == (w as int) * py) by (nonlinear_arith);
            assert(cell(w as int, px, py) == k);
        }
        assert(labels@ =~= target);
    }
    labels
}

/// The color budget asked of the palette fit: the configured color count, at
/// least two.
pub open spec fn requested_colors(color_count: u16) -> int {
    if color_count < 2 {
        2
    } else {
        color_count as int
    }
}

/// The pixels the palette is fitted to: the sampled pixels for a tile-aware
/// quantization, all pixels otherwise.
pub open spec fn fit_samples(
    rgba: Seq<[u8; 4]>,
    w: int,
    h: int,
    alpha_threshold: u8,
    tile_size: Option<u32>,
) -> Seq<[u8; 3]> {
    match tile_size {
        Some(_) => palette_samples(rgba, w, h, alpha_threshold),
        None => composited(rgba, alpha_threshold),
    }
}

/// The labels and palette of a segmentation with a fitted palette: repeated
/// colors dropped, label islands cleaned up as the settings ask.
pub open spec fn fitted_segmentation<F: Fn([u8; 3], [u8; 3], [u8; 3]) -> bool>(
    f: F,
    pixels: Seq<[u8; 3]>,
    w: int,
    h: int,
    fitted: Seq<[u8; 3]>,
    settings: DetailSettings,
) -> (Seq<u8>, Seq<PaletteColor>) {
    let palette = dedup_colors(fitted);
    let tiny = tiny_area_limit(settings, palette.len() as int) as int;
    (segmented_labels(f, pixels, palette, w, h, tiny), segmented_palette(f, pixels, palette, w, h, tiny))
}

proof fn lemma_dedup_len(s: Seq<[u8; 3]>)
    ensures
        dedup_colors(s).len() <= s.len(),
        s.len() > 0 ==> dedup_colors(s).len() > 0,
    decreases s.len(),
{
    if s.len() > 0 {
        lemma_dedup_len(s.drop_last());
    }
}

proof fn lemma_select_cap_below(counts: Seq<u32>, requested: int, total: int, caps: Seq<(usize, u32, u32)>)
    ensures
        spec_select_cap(counts, requested, total, caps) matches Some(cap) ==> cap < requested,
    decreases caps.len(),
{
    if caps.len() > 0 {
        lemma_select_cap_below(counts, requested, total, caps.drop_first());
    }
}

/// Segment the image with a fitted palette: drop repeated colors, label the
/// pixels (tile by tile when a tile size is given), clean up and compact.
fn segment_fitted<F: Fn([u8; 3], [u8; 3], [u8; 3]) -> bool>(
    rgba: &Vec<[u8; 4]>,
    pixels: &Vec<[u8; 3]>,
    width: u32,
    height: u32,
    settings: &DetailSettings,
    alpha_threshold: u8,
    tile_size: Option<u32>,
    fitted: Vec<[u8; 3]>,
    no_farther_fn: &F,
) -> (r: SegmentationResult)
    requires
        is_color_order(*no_farther_fn),
        pixels@ == composited(rgba@, alpha_threshold),
        rgba@.len() == width * height,
        rgba@.len() <= u32::MAX,
        1 <= fitted@.len() <= 256,
    ensures
        r.width == width,
        r.height == height,
        r.labels@ == fitted_segmentation(*no_farther_fn, pixels@, width as int, height as int, fitted@, *settings).0,
        r.palette@ == fitted_segmentation(*no_farther_fn, pixels@, width as int, height as int, fitted@, *settings).1,
        r.labels@.len() == rgba@.len(),
        labels_in_palette(r.labels@, r.palette@.len() as int),
        forall|j: int| 0 <= j < r.palette@.len() ==> #[trigger] label_used(r.labels@, j),
        r.palette@.len() <= fitted@.len(),
{
    let ghost fitted_view = fitted@;
    let palette = deduplicate_palette(fitted);
    proof {
        lemma_dedup_len(fitted_view);
        assert(palette@.len() * palette@.len() <= 256 * 256) by (nonlinear_arith)
            requires
                palette@.len() <= 256,
        ;
    }
    let tiny_area = tiny_component_cleanup_area_threshold(settings, palette.len());
    let r = match tile_size {
        Some(size) => {
            let labels = assign_image_labels_tiled(
                rgba,
                width,
                height,
                alpha_threshold,
                &palette,
                size,
                no_farther_fn,
            );
            segment_assigned_labels(pixels, labels, width, height, &palette, tiny_area, no_farther_fn)
        },
        None => segment_with_palette(pixels, width, height, &palette, tiny_area, no_farther_fn),
    };
    proof {
        assert(r.labels@.len() == pixels@.len());
        let l = crate::segment::cleaned_labels(
            *no_farther_fn,
            pixels@,
            palette@,
            width as int,
            height as int,
            tiny_area as int,
        );
        lemma_used_below_mono(l, 0, palette@.len() as int);
    }
    r
}

/// The palette fit returns at least one color, and no more than the budget
/// unless it returns a single one.
pub open spec fn fits_within_budget<G: Fn(&Vec<[u8; 3]>, usize) -> Vec<[u8; 3]>>(fit_palette: G) -> bool {
    forall|samples: &Vec<[u8; 3]>, budget: usize, out: Vec<[u8; 3]>|
        #[trigger] fit_palette.ensures((samples, budget), out) ==> 1 <= out@.len() && (out@.len() <= budget
            || out@.len() == 1)
}

/// The palette fit gives equal palettes for equal samples and budgets.
pub open spec fn fits_deterministically<G: Fn(&Vec<[u8; 3]>, usize) -> Vec<[u8; 3]>>(fit_palette: G) -> bool {
    forall|s1: &Vec<[u8; 3]>, s2: &Vec<[u8; 3]>, budget: usize, o1: Vec<[u8; 3]>, o2: Vec<[u8; 3]>|
        #![trigger fit_palette.ensures((s1, budget), o1), fit_palette.ensures((s2, budget), o2)]
        fit_palette.ensures((s1, budget), o1) && fit_palette.ensures((s2, budget), o2) && s1@ == s2@ ==> o1@
            == o2@
}

/// The labels and palette a quantization may give: the palette is fitted to
/// the fit samples under the adaptive budget and the image segmented with it;
/// when that segmentation is flat art, the palette is fitted again under the
/// rerun cap and the image segmented with the second palette.
pub open spec fn quantize_outcome<F: Fn([u8; 3], [u8; 3], [u8; 3]) -> bool, G: Fn(&Vec<[u8; 3]>, usize) -> Vec<[u8; 3]>>(
    fit_palette: G,
    no_farther_fn: F,
    rgba: Seq<[u8; 4]>,
    width: int,
    height: int,
    settings: DetailSettings,
    alpha_threshold: u8,
    tile_size: Option<u32>,
    labels: Seq<u8>,
    palette: Seq<PaletteColor>,
) -> bool {
    let pixels = composited(rgba, alpha_threshold);
    let samples = fit_samples(rgba, width, height, alpha_threshold, tile_size);
    let budget = spec_adaptive_color_budget(samples, requested_colors(settings.color_count));
    exists|sv: Vec<[u8; 3]>, first: Vec<[u8; 3]>|
        #![trigger fit_palette.ensures((&sv, budget as usize), first)]
        sv@ == samples && fit_palette.ensures((&sv, budget as usize), first) && {
            let seg = fitted_segmentation(no_farther_fn, pixels, width, height, first@, settings);
            match spec_flat_art_rerun_cap(seg.0, seg.1.len() as int) {
                None => labels == seg.0 && palette == seg.1,
                Some(cap) => exists|second: Vec<[u8; 3]>|
                    #[trigger] fit_palette.ensures((&sv, cap), second) && labels == fitted_segmentation(
                        no_farther_fn,
                        pixels,
                        width,
                        height,
                        second@,
                        settings,
                    ).0 && palette == fitted_segmentation(no_farther_fn, pixels, width, height, second@, settings).1,
            }
        }
}

/// Quantize a composited RGBA image to a palette and label every pixel.
///
/// The palette is fitted by `fit_palette` to the fit samples (every pixel, or
/// a grid of samples when a tile size is given) under the adaptive color
/// budget; the image is segmented with it. When the segmentation turns out
/// to be flat art (a few palette entries cover almost every label), the
/// palette is fitted again under the smaller rerun cap and the image segmented
/// once more.
pub fn quantize<F, G>(
    rgba: &Vec<[u8; 4]>,
    width: u32,
    height: u32,
    settings: &DetailSettings,
    alpha_threshold: u8,
    tile_size: Option<u32>,
    fit_palette: &G,
    no_farther_fn: &F,
) -> (r: SegmentationResult) where
    F: Fn([u8; 3], [u8; 3], [u8; 3]) -> bool,
    G: Fn(&Vec<[u8; 3]>, usize) -> Vec<[u8; 3]>,

    requires
        is_color_order(*no_farther_fn),
        rgba@.len() == width * height,
        rgba@.len() <= u32::MAX,
        settings.color_count <= 256,
        forall|samples: &Vec<[u8; 3]>, budget: usize| #[trigger] fit_palette.requires((samples, budget)),
        fits_within_budget(*fit_palette),
    ensures
        r.width == width,
        r.height == height,
        r.labels@.len() == rgba@.len(),
        labels_in_palette(r.labels@, r.palette@.len() as int),
        forall|j: int| 0 <= j < r.palette@.len() ==> #[trigger] label_used(r.labels@, j),
        r.palette@.len() <= requested_colors(settings.color_count),
        quantize_outcome(
            *fit_palette,
            *no_farther_fn,
            rgba@,
            width as int,
            height as int,
            *settings,
            alpha_threshold,
            tile_size,
            r.labels@,
            r.palette@,
        ),
{
    let pixels = composite_pixels(rgba, alpha_threshold);
    let samples = match tile_size {
        Some(_) => collect_palette_samples(rgba, width, height, alpha_threshold),
        None => composite_pixels(rgba, alpha_threshold),
    };
    let requested: usize = if settings.color_count < 2 {
        2
    } else {
        settings.color_count as usize
    };
    proof {
        if !(requested <= 12 || samples@.len() == 0) {
            lemma_select_cap_below(
                crate::segment::sorted_desc(crate::segment::histogram_counts(samples@)),
                requested as int,
                samples@.len() as int,
                crate::segment::budget_caps(),
            );
        }
    }
    let budget = adaptive_color_budget(&samples, requested);
    let first = fit_palette(&samples, budget);
    let ghost first_copy = first;
    let ghost sample_copy = samples;
    let seg = segment_fitted(
        rgba,
        &pixels,
        width,
        height,
        settings,
        alpha_threshold,
        tile_size,
        first,
        no_farther_fn,
    );
    let palette_len = seg.palette.len();
    let ghost pixels_view = composited(rgba@, alpha_threshold);
    let ghost first_seg = fitted_segmentation(
        *no_farther_fn,
        pixels_view,
        width as int,
        height as int,
        first_copy@,
        *settings,
    );
    proof {
        assert(sample_copy@ == fit_samples(rgba@, width as int, height as int, alpha_threshold, tile_size));
        assert(budget as int == spec_adaptive_color_budget(sample_copy@, requested_colors(settings.color_count)));
        assert(fit_palette.ensures((&sample_copy, budget), first_copy));
    }
    let rerun = flat_art_rerun_cap(&seg.labels, palette_len);
    proof {
        lemma_select_cap_below(
            crate::segment::sorted_desc(
                crate::segment::nonzero_counts(crate::segment::usage_counts(seg.labels@, palette_len as int)),
            ),
            palette_len as int,
            seg.labels@.len() as int,
            crate::segment::rerun_caps(),
        );
        assert(palette_len <= requested_colors(settings.color_count));
    }
    let result = match rerun {
        Some(cap) => {
            let second = fit_palette(&samples, cap);
            let ghost second_copy = second;
            let again = segment_fitted(
                rgba,
                &pixels,
                width,
                height,
                settings,
                alpha_threshold,
                tile_size,
                second,
                no_farther_fn,
            );
            proof {
                assert(fit_palette.ensures((&sample_copy, cap), second_copy));
                assert(exists|second: Vec<[u8; 3]>|
                    #[trigger] fit_palette.ensures((&sample_copy, cap), second) && again.labels@ == fitted_segmentation(
                        *no_farther_fn,
                        pixels_view,
                        width as int,
                        height as int,
                        second@,
                        *settings,
                    ).0 && again.palette@ == fitted_segmentation(
                        *no_farther_fn,
                        pixels_view,
                        width as int,
                        height as int,
                        second@,
                        *settings,
                    ).1);
            }
            again
        },
        None => seg,
    };
    proof {
        assert(spec_flat_art_rerun_cap(first_seg.0, first_seg.1.len() as int) == rerun);
        let spec_budget = spec_adaptive_color_budget(
            fit_samples(rgba@, width as int, height as int, alpha_threshold, tile_size),
            requested_colors(settings.color_count),
        );
        assert(spec_budget as usize == budget);
        assert(fit_palette.ensures((&sample_copy, spec_budget as usize), first_copy));
    }
    result
}

/// An image of at most `sample_limit()` pixels is sampled at every pixel.
proof fn lemma_small_image_samples_all(rgba: Seq<[u8; 4]>, w: int, h: int, alpha_threshold: u8)
    requires
        w >= 0,
        h >= 0,
        rgba.len() == w * h,
        w * h <= sample_limit(),
    ensures
        palette_samples(rgba, w, h, alpha_threshold) == composited(rgba, alpha_threshold),
{
    let ps = palette_samples(rgba, w, h, alpha_threshold);
    let all = composited(rgba, alpha_threshold);
    if w <= 0 || h <= 0 {
        assert(w * h == 0) by (nonlinear_arith)
            requires
                w == 0 || h == 0,
        ;
        assert(ps =~= all);
    } else {
        assert(w * h >= 1) by (nonlinear_arith)
            requires
                w >= 1,
                h >= 1,
        ;
        assert((w * h + sample_limit() - 1) / sample_limit() == 1);
        assert(ceil_sqrt_from(1, 1) == 1);
        assert(sample_stride(w * h) == 1);
        lemma_grid_count(w, 1, w);
        lemma_grid_count(h, 1, h);
        assert forall|k: int| 0 <= k < w * h implies #[trigger] ps[k] == all[k] by {
            vstd::arithmetic::div_mod::lemma_fundamental_div_mod(k, w);
            assert((k / w) * 1 * w + (k % w) * 1 == k) by (nonlinear_arith)
                requires
                    k == w * (k / w) + k % w,
            ;
        }
        assert(ps =~= all);
    }
}

/// On an image of at most `sample_limit()` pixels a tile-aware quantization
/// gives the same labels and palette as one without tiles, whatever the tile
/// size, when the palette fit is deterministic: the grid of samples is then
/// every pixel, and labeling tile by tile labels each pixel as labeling in
/// order does.
pub proof fn lemma_tiling_matches_untiled_on_small_images<
    F: Fn([u8; 3], [u8; 3], [u8; 3]) -> bool,
    G: Fn(&Vec<[u8; 3]>, usize) -> Vec<[u8; 3]>,
>(
    fit_palette: G,
    no_farther_fn: F,
    rgba: Seq<[u8; 4]>,
    width: u32,
    height: u32,
    settings: DetailSettings,
    alpha_threshold: u8,
    tile_size: u32,
    untiled_labels: Seq<u8>,
    untiled_palette: Seq<PaletteColor>,
    tiled_labels: Seq<u8>,
    tiled_palette: Seq<PaletteColor>,
)
    requires
        fits_deterministically(fit_palette),
        rgba.len() == width * height,
        width * height <= sample_limit(),
        quantize_outcome(
            fit_palette,
            no_farther_fn,
            rgba,
            width as int,
            height as int,
            settings,
            alpha_threshold,
            None,
            untiled_labels,
            untiled_palette,
        ),
        quantize_outcome(
            fit_palette,
            no_farther_fn,
            rgba,
            width as int,
            height as int,
            settings,
            alpha_threshold,
            Some(tile_size),
            tiled_labels,
            tiled_palette,
        ),
    ensures
        tiled_labels == untiled_labels,
        tiled_palette == untiled_palette,
{
    let w = width as int;
    let h = height as int;
    lemma_small_image_samples_all(rgba, w, h, alpha_threshold);
    let pixels = composited(rgba, alpha_threshold);
    let samples = fit_samples(rgba, w, h, alpha_threshold, None);
    assert(fit_samples(rgba, w, h, alpha_threshold, Some(tile_size)) == samples);
    let budget = spec_adaptive_color_budget(samples, requested_colors(settings.color_count));
    let (sv1, first1) = choose|sv: Vec<[u8; 3]>, first: Vec<[u8; 3]>|
        #![trigger fit_palette.ensures((&sv, budget as usize), first)]
        sv@ == samples && fit_palette.ensures((&sv, budget as usize), first) && {
            let seg = fitted_segmentation(no_farther_fn, pixels, w, h, first@, settings);
            match spec_flat_art_rerun_cap(seg.0, seg.1.len() as int) {
                None => untiled_labels == seg.0 && untiled_palette == seg.1,
                Some(cap) => exists|second: Vec<[u8; 3]>|
                    #[trigger] fit_palette.ensures((&sv, cap), second) && untiled_labels == fitted_segmentation(
                        no_farther_fn,
                        pixels,
                        w,
                        h,
                        second@,
                        settings,
                    ).0 && untiled_palette == fitted_segmentation(no_farther_fn, pixels, w, h, second@, settings).1,
            }
        };
    let (sv2, first2) = choose|sv: Vec<[u8; 3]>, first: Vec<[u8; 3]>|
        #![trigger fit_palette.ensures((&sv, budget as usize), first)]
        sv@ == samples && fit_palette.ensures((&sv, budget as usize), first) && {
            let seg = fitted_segmentation(no_farther_fn, pixels, w, h, first@, settings);
            match spec_flat_art_rerun_cap(seg.0, seg.1.len() as int) {
                None => tiled_labels == seg.0 && tiled_palette == seg.1,
                Some(cap) => exists|second: Vec<[u8; 3]>|
                    #[trigger] fit_palette.ensures((&sv, cap), second) && tiled_labels == fitted_segmentation(
                        no_farther_fn,
                        pixels,
                        w,
                        h,
                        second@,
                        settings,
                    ).0 && tiled_palette == fitted_segmentation(no_farther_fn, pixels, w, h, second@, settings).1,
            }
        };
    assert(first1@ == first2@);
    let seg = fitted_segmentation(no_farther_fn, pixels, w, h, first1@, settings);
    match spec_flat_art_rerun_cap(seg.0, seg.1.len() as int) {
        None => {},
        Some(cap) => {
            let second1 = choose|second: Vec<[u8; 3]>|
                #[trigger] fit_palette.ensures((&sv1, cap), second) && untiled_labels == fitted_segmentation(
                    no_farther_fn,
                    pixels,
                    w,
                    h,
                    second@,
                    settings,
                ).0 && untiled_palette == fitted_segmentation(no_farther_fn, pixels, w, h, second@, settings).1;
            let second2 = choose|second: Vec<[u8; 3]>|
                #[trigger] fit_palette.ensures((&sv2, cap), second) && tiled_labels == fitted_segmentation(
                    no_farther_fn,
                    pixels,
                    w,
                    h,
                    second@,
                    settings,
                ).0 && tiled_palette == fitted_segmentation(no_farther_fn, pixels, w, h, second@, settings).1;
            assert(second1@ == second2@);
        },
    }
}

} // verus!
