//! Edge-aware denoising of RGBA images.
//!
//! The 3×3 Gaussian kernel has the weights 1, 2 and 4 sixteenths, so every
//! weighted sum of 8-bit samples is a multiple of 1/16 below 256 and is exact
//! in `f32`; the rounded quotient of two such sums stays below the next
//! integer. Truncating it is therefore the integer floor of the exact
//! quotient, which is what is computed here.

use vstd::prelude::*;

use crate::loader::Bitmap;

verus! {

/// The largest channel difference of two RGBA pixels.
pub open spec fn spec_color_delta(left: [u8; 4], right: [u8; 4]) -> int {
    let d0 = if left[0] >= right[0] { left[0] - right[0] } else { right[0] - left[0] };
    let d1 = if left[1] >= right[1] { left[1] - right[1] } else { right[1] - left[1] };
    let d2 = if left[2] >= right[2] { left[2] - right[2] } else { right[2] - left[2] };
    let d3 = if left[3] >= right[3] { left[3] - right[3] } else { right[3] - left[3] };
    let m01 = if d0 >= d1 { d0 } else { d1 };
    let m23 = if d2 >= d3 { d2 } else { d3 };
    if m01 >= m23 {
        m01
    } else {
        m23
    }
}

/// The absolute difference of channel `c` of two RGBA pixels.
pub open spec fn channel_difference(left: [u8; 4], right: [u8; 4], c: int) -> int {
    if left[c] >= right[c] {
        left[c] - right[c]
    } else {
        right[c] - left[c]
    }
}

/// The color delta of two pixels is the largest of their four channel
/// differences, alpha included: at least each of them, and equal to one.
pub proof fn lemma_color_delta_is_largest_channel_difference(left: [u8; 4], right: [u8; 4])
    ensures
        forall|c: int| 0 <= c < 4 ==> #[trigger] channel_difference(left, right, c) <= spec_color_delta(left, right),
        exists|c: int| 0 <= c < 4 && #[trigger] channel_difference(left, right, c) == spec_color_delta(left, right),
{
    assert(channel_difference(left, right, 0) <= spec_color_delta(left, right));
    assert(channel_difference(left, right, 1) <= spec_color_delta(left, right));
    assert(channel_difference(left, right, 2) <= spec_color_delta(left, right));
    assert(channel_difference(left, right, 3) <= spec_color_delta(left, right));
    assert forall|c: int| 0 <= c < 4 implies #[trigger] channel_difference(left, right, c) <= spec_color_delta(
        left,
        right,
    ) by {
        if c == 0 {
        } else if c == 1 {
        } else if c == 2 {
        } else {
        }
    }
    if channel_difference(left, right, 0) == spec_color_delta(left, right) {
    } else if channel_difference(left, right, 1) == spec_color_delta(left, right) {
    } else if channel_difference(left, right, 2) == spec_color_delta(left, right) {
    } else {
        assert(channel_difference(left, right, 3) == spec_color_delta(left, right));
    }
}

/// The largest channel difference of two RGBA pixels.
pub fn color_delta(left: [u8; 4], right: [u8; 4]) -> (r: i16)
    ensures
        r == spec_color_delta(left, right),
        forall|c: int| 0 <= c < 4 ==> #[trigger] channel_difference(left, right, c) <= r,
        exists|c: int| 0 <= c < 4 && #[trigger] channel_difference(left, right, c) == r,
{
    proof {
        lemma_color_delta_is_largest_channel_difference(left, right);
    }
    let mut best: i16 = 0;
    let mut c: usize = 0;
    while c < 4
        invariant
            c <= 4,
            0 <= best <= 255,
            best == (if c == 0 {
                0
            } else {
                let d0 = if left[0] >= right[0] { left[0] - right[0] } else { right[0] - left[0] };
                let d1 = if left[1] >= right[1] { left[1] - right[1] } else { right[1] - left[1] };
                let d2 = if left[2] >= right[2] { left[2] - right[2] } else { right[2] - left[2] };
                let d3 = if left[3] >= right[3] { left[3] - right[3] } else { right[3] - left[3] };
                let m01 = if d0 >= d1 { d0 } else { d1 };
                if c == 1 {
                    d0
                } else if c == 2 {
                    m01
                } else if c == 3 {
                    if m01 >= d2 { m01 } else { d2 }
                } else {
                    let m23 = if d2 >= d3 { d2 } else { d3 };
                    if m01 >= m23 { m01 } else { m23 }
                }
            }),
        decreases 4 - c,
    {
        let d = left[c] as i16 - right[c] as i16;
        let d = if d < 0 {
            -d
        } else {
            d
        };
        if d > best {
            best = d;
        }
        c += 1;
    }
    best
}

/// Kernel weight, in sixteenths, of the `k`-th cell of the 3×3 window in
/// row-major order.
pub open spec fn blur_weight(k: int) -> int {
    if k == 4 {
        4
    } else if k == 1 || k == 3 || k == 5 || k == 7 {
        2
    } else {
        1
    }
}

/// Horizontal offset of the `k`-th window cell.
pub open spec fn blur_dx(k: int) -> int {
    k % 3 - 1
}

/// Vertical offset of the `k`-th window cell.
pub open spec fn blur_dy(k: int) -> int {
    k / 3 - 1
}

/// The `k`-th window cell around `(x, y)`.
pub open spec fn window_pixel(src: Seq<[u8; 4]>, w: int, x: int, y: int, k: int) -> [u8; 4] {
    src[(y + blur_dy(k)) * w + (x + blur_dx(k))]
}

/// The `k`-th window cell takes part in the blur: it differs from the center
/// by at most 48 in every channel.
pub open spec fn blur_includes(src: Seq<[u8; 4]>, w: int, x: int, y: int, k: int) -> bool {
    spec_color_delta(src[y * w + x], window_pixel(src, w, x, y, k)) <= 48
}

/// A window cell takes part in the blur exactly when none of its four
/// channels, alpha included, differs from the center's by more than 48.
pub proof fn lemma_blur_includes_close_cells(src: Seq<[u8; 4]>, w: int, x: int, y: int, k: int)
    ensures
        blur_includes(src, w, x, y, k) <==> forall|c: int|
            0 <= c < 4 ==> #[trigger] channel_difference(src[y * w + x], window_pixel(src, w, x, y, k), c) <= 48,
{
    lemma_color_delta_is_largest_channel_difference(src[y * w + x], window_pixel(src, w, x, y, k));
}

/// Sum of the weights of the taking-part cells among the first `m`.
pub open spec fn blur_weight_sum(src: Seq<[u8; 4]>, w: int, x: int, y: int, m: int) -> int
    decreases m,
{
    if m <= 0 {
        0
    } else {
        blur_weight_sum(src, w, x, y, m - 1) + if blur_includes(src, w, x, y, m - 1) {
            blur_weight(m - 1)
        } else {
            0
        }
    }
}

/// Weighted sum of channel `c` over the taking-part cells among the first `m`.
pub open spec fn blur_channel_sum(src: Seq<[u8; 4]>, w: int, x: int, y: int, c: int, m: int) -> int
    decreases m,
{
    if m <= 0 {
        0
    } else {
        blur_channel_sum(src, w, x, y, c, m - 1) + if blur_includes(src, w, x, y, m - 1) {
            blur_weight(m - 1) * window_pixel(src, w, x, y, m - 1)[c]
        } else {
            0
        }
    }
}

/// Pixel `(x, y)` after the edge-aware blur: inside the one-pixel border each
/// channel is the weighted mean (rounded down) of the window cells that
/// differ from the center by at most 48; border pixels are unchanged.
pub open spec fn blurred_pixel(src: Seq<[u8; 4]>, w: int, h: int, x: int, y: int) -> [u8; 4] {
    if 1 <= x < w - 1 && 1 <= y < h - 1 {
        let total = blur_weight_sum(src, w, x, y, 9);
        [
            (blur_channel_sum(src, w, x, y, 0, 9) / total) as u8,
            (blur_channel_sum(src, w, x, y, 1, 9) / total) as u8,
            (blur_channel_sum(src, w, x, y, 2, 9) / total) as u8,
            (blur_channel_sum(src, w, x, y, 3, 9) / total) as u8,
        ]
    } else {
        src[y * w + x]
    }
}

proof fn lemma_window_index(w: int, h: int, x: int, y: int, k: int)
    requires
        1 <= x < w - 1,
        1 <= y < h - 1,
        0 <= k < 9,
    ensures
        0 <= (y + blur_dy(k)) * w + (x + blur_dx(k)) < w * h,
        k == 4 ==> (y + blur_dy(k)) * w + (x + blur_dx(k)) == y * w + x,
{
    let dx = blur_dx(k);
    let dy = blur_dy(k);
    assert(-1 <= dx <= 1 && -1 <= dy <= 1);
    let yy = y + dy;
    let xx = x + dx;
    assert(0 <= yy * w) by (nonlinear_arith)
        requires
            0 <= yy,
            0 <= w,
    ;
    assert(yy * w + xx < w * h) by (nonlinear_arith)
        requires
            0 <= xx < w,
            0 <= yy < h,
    ;
}

proof fn lemma_blur_sums(src: Seq<[u8; 4]>, w: int, x: int, y: int, c: int, m: int)
    requires
        0 <= m <= 9,
        0 <= c < 4,
    ensures
        0 <= blur_weight_sum(src, w, x, y, m) <= 4 * m,
        0 <= blur_channel_sum(src, w, x, y, c, m) <= 255 * blur_weight_sum(src, w, x, y, m),
    decreases m,
{
    if m > 0 {
        lemma_blur_sums(src, w, x, y, c, m - 1);
        let p = window_pixel(src, w, x, y, m - 1)[c];
        assert(0 <= blur_weight(m - 1) * p <= 255 * blur_weight(m - 1)) by (nonlinear_arith)
            requires
                0 <= p <= 255,
                1 <= blur_weight(m - 1) <= 4,
        ;
    }
}

/// The blurred value of one interior pixel.
fn blur_at(src: &Vec<[u8; 4]>, w: usize, h: usize, x: usize, y: usize) -> (r: [u8; 4])
    requires
        src@.len() == w * h,
        1 <= x < w - 1,
        1 <= y < h - 1,
    ensures
        r == blurred_pixel(src@, w as int, h as int, x as int, y as int),
{
    let len = src.len();
    proof {
        lemma_window_index(w as int, h as int, x as int, y as int, 4);
    }
    let center = src[y * w + x];
    let mut total: u32 = 0;
    let mut sums: [u32; 4] = [0, 0, 0, 0];
    let mut k: usize = 0;
    while k < 9
        invariant
            src@.len() == w * h,
            len == src@.len(),
            1 <= x < w - 1,
            1 <= y < h - 1,
            center == src@[y * w + x],
            k <= 9,
            total == blur_weight_sum(src@, w as int, x as int, y as int, k as int),
            forall|c: int| 0 <= c < 4 ==> #[trigger] sums[c] == blur_channel_sum(src@, w as int, x as int, y as int, c, k as int),
        decreases 9 - k,
    {
        proof {
            lemma_window_index(w as int, h as int, x as int, y as int, k as int);
            lemma_blur_sums(src@, w as int, x as int, y as int, 0, k as int);
            lemma_blur_sums(src@, w as int, x as int, y as int, 1, k as int);
            lemma_blur_sums(src@, w as int, x as int, y as int, 2, k as int);
            lemma_blur_sums(src@, w as int, x as int, y as int, 3, k as int);
        }
        let nx = x + k % 3 - 1;
        let ny = y + k / 3 - 1;
        let px = src[ny * w + nx];
        let weight: u32 = if k == 4 {
            4
        } else if k == 1 || k == 3 || k == 5 || k == 7 {
            2
        } else {
            1
        };
        proof {
            assert(sums[0] == blur_channel_sum(src@, w as int, x as int, y as int, 0, k as int));
            assert(sums[1] == blur_channel_sum(src@, w as int, x as int, y as int, 1, k as int));
            assert(sums[2] == blur_channel_sum(src@, w as int, x as int, y as int, 2, k as int));
            assert(sums[3] == blur_channel_sum(src@, w as int, x as int, y as int, 3, k as int));
        }
        if color_delta(center, px) <= 48 {
            total = total + weight;
            sums = [
                sums[0] + weight * px[0] as u32,
                sums[1] + weight * px[1] as u32,
                sums[2] + weight * px[2] as u32,
                sums[3] + weight * px[3] as u32,
            ];
        }
        k += 1;
    }
    proof {
        lemma_blur_sums(src@, w as int, x as int, y as int, 0, 9);
        lemma_blur_sums(src@, w as int, x as int, y as int, 1, 9);
        lemma_blur_sums(src@, w as int, x as int, y as int, 2, 9);
        lemma_blur_sums(src@, w as int, x as int, y as int, 3, 9);
        lemma_window_index(w as int, h as int, x as int, y as int, 4);
        assert(total >= 4) by {
            lemma_center_included(src@, w as int, x as int, y as int, 9);
        }
    }
    let r = [
        (sums[0] / total) as u8,
        (sums[1] / total) as u8,
        (sums[2] / total) as u8,
        (sums[3] / total) as u8,
    ];
    proof {
        assert(r@ =~= blurred_pixel(src@, w as int, h as int, x as int, y as int)@);
    }
    r
}

proof fn lemma_center_included(src: Seq<[u8; 4]>, w: int, x: int, y: int, m: int)
    requires
        5 <= m <= 9,
        (y + blur_dy(4)) * w + (x + blur_dx(4)) == y * w + x,
    ensures
        blur_weight_sum(src, w, x, y, m) >= 4,
    decreases m,
{
    if m > 5 {
        lemma_center_included(src, w, x, y, m - 1);
    } else {
        assert(blur_includes(src, w, x, y, 4));
        lemma_blur_sums(src, w, x, y, 0, 4);
    }
}

/// Apply the 3×3 edge-aware Gaussian blur to a `width` by `height` image of
/// RGBA pixels (row by row): every pixel inside the one-pixel border becomes
/// the weighted mean of the neighbors that differ from it by at most 48 in
/// every channel (see `blurred_pixel`).
pub fn gaussian_blur(src: &Vec<[u8; 4]>, width: u32, height: u32) -> (r: Vec<[u8; 4]>)
    requires
        src@.len() == width * height,
    ensures
        r@.len() == src@.len(),
        forall|i: int|
            0 <= i < src@.len() ==> #[trigger] r@[i] == blurred_pixel(
                src@,
                width as int,
                height as int,
                i % (width as int),
                i / (width as int),
            ),
{
    let w = width as usize;
    let h = height as usize;
    let n = src.len();
    let mut dst: Vec<[u8; 4]> = Vec::new();
    let mut i: usize = 0;
    while i < n
        invariant
            n == src@.len(),
            i <= n,
            dst@ == src@.subrange(0, i as int),
        decreases n - i,
    {
        dst.push(src[i]);
        i += 1;
    }
    proof {
        assert(dst@ =~= src@.subrange(0, n as int));
    }
    if w < 3 || h < 3 {
        proof {
            assert forall|i: int| 0 <= i < src@.len() implies #[trigger] dst@[i] == blurred_pixel(
                src@,
                w as int,
                h as int,
                i % (w as int),
                i / (w as int),
            ) by {
                lemma_split_index(i, w as int, h as int);
            }
        }
        return dst;
    }
    let mut y: usize = 1;
    while y < h - 1
        invariant
            n == src@.len(),
            src@.len() == w * h,
            w == width,
            h == height,
            w >= 3,
            h >= 3,
            1 <= y <= h - 1,
            dst@.len() == n,
            forall|t: int|
                0 <= t < n ==> #[trigger] dst@[t] == (if 1 <= t / (w as int) < y {
                    blurred_pixel(src@, w as int, h as int, t % (w as int), t / (w as int))
                } else {
                    src@[t]
                }),
        decreases h - 1 - y,
    {
        let mut x: usize = 1;
        while x < w - 1
            invariant
                n == src@.len(),
                src@.len() == w * h,
                w >= 3,
                h >= 3,
                1 <= y < h - 1,
                1 <= x <= w - 1,
                dst@.len() == n,
                forall|t: int|
                    0 <= t < n ==> #[trigger] dst@[t] == (if (1 <= t / (w as int) < y) || (t / (w as int) == y && 1
                        <= t % (w as int) < x) {
                        blurred_pixel(src@, w as int, h as int, t % (w as int), t / (w as int))
                    } else {
                        src@[t]
                    }),
            decreases w - 1 - x,
        {
            proof {
                lemma_window_index(w as int, h as int, x as int, y as int, 4);
            }
            let value = blur_at(src, w, h, x, y);
            let index = y * w + x;
            let ghost before = dst@;
            dst.set(index, value);
            proof {
                vstd::arithmetic::div_mod::lemma_fundamental_div_mod_converse(index as int, w as int, y as int, x as int);
                assert forall|t: int| 0 <= t < n implies #[trigger] dst@[t] == (if (1 <= t / (w as int) < y) || (t / (w
                    as int) == y && 1 <= t % (w as int) < x + 1) {
                    blurred_pixel(src@, w as int, h as int, t % (w as int), t / (w as int))
                } else {
                    src@[t]
                }) by {
                    if t != index {
                        assert(dst@[t] == before[t]);
                        if t / (w as int) == y && t % (w as int) == x {
                            lemma_split_index(t, w as int, h as int);
                        }
                    }
                }
            }
            x += 1;
        }
        proof {
            assert forall|t: int| 0 <= t < n implies #[trigger] dst@[t] == (if 1 <= t / (w as int) < y + 1 {
                blurred_pixel(src@, w as int, h as int, t % (w as int), t / (w as int))
            } else {
                src@[t]
            }) by {
                lemma_split_index(t, w as int, h as int);
            }
        }
        y += 1;
    }
    proof {
        assert forall|t: int| 0 <= t < n implies #[trigger] dst@[t] == blurred_pixel(
            src@,
            w as int,
            h as int,
            t % (w as int),
            t / (w as int),
        ) by {
            lemma_split_index(t, w as int, h as int);
        }
    }
    dst
}

proof fn lemma_split_index(i: int, w: int, h: int)
    requires
        0 <= i < w * h,
        0 < w,
    ensures
        0 <= i % w < w,
        0 <= i / w < h,
        i == (i / w) * w + i % w,
{
    vstd::arithmetic::div_mod::lemma_fundamental_div_mod(i, w);
    vstd::arithmetic::div_mod::lemma_mod_bound(i, w);
    vstd::arithmetic::div_mod::lemma_div_pos_is_pos(i, w);
    let q = i / w;
    assert(w * q == q * w) by (nonlinear_arith);
    if q >= h {
        assert(q * w >= h * w) by (nonlinear_arith)
            requires
                q >= h,
                w > 0,
        ;
        assert(w * h == h * w) by (nonlinear_arith);
    }
}


/// The pixels of a bitmap, row by row.
pub open spec fn bitmap_pixels(b: Bitmap) -> Seq<[u8; 4]> {
    Seq::new(
        (b.width * b.height) as nat,
        |i: int| [b.rgba@[4 * i], b.rgba@[4 * i + 1], b.rgba@[4 * i + 2], b.rgba@[4 * i + 3]],
    )
}

/// The pixels of a bitmap, row by row.
pub fn pixels_of(bitmap: &Bitmap) -> (r: Vec<[u8; 4]>)
    requires
        bitmap.wf(),
    ensures
        r@ == bitmap_pixels(*bitmap),
{
    let len = bitmap.rgba.len();
    let n = len / 4;
    let mut pixels: Vec<[u8; 4]> = Vec::new();
    let mut i: usize = 0;
    while i < n
        invariant
            len == bitmap.rgba@.len(),
            bitmap.wf(),
            n == bitmap.width * bitmap.height,
            i <= n,
            pixels@.len() == i,
            forall|t: int| 0 <= t < i ==> #[trigger] pixels@[t] == bitmap_pixels(*bitmap)[t],
        decreases n - i,
    {
        let p = [bitmap.rgba[4 * i], bitmap.rgba[4 * i + 1], bitmap.rgba[4 * i + 2], bitmap.rgba[4 * i + 3]];
        pixels.push(p);
        proof {
            assert(pixels@[i as int]@ =~= bitmap_pixels(*bitmap)[i as int]@);
        }
        i += 1;
    }
    proof {
        assert(pixels@ =~= bitmap_pixels(*bitmap));
    }
    pixels
}

/// Preprocess a decoded image: its pixels, denoised with the edge-aware blur
/// when both preprocessing and denoising are enabled.
pub fn preprocess(bitmap: &Bitmap, enable_preprocessing: bool, enable_denoising: bool) -> (r: Vec<[u8; 4]>)
    requires
        bitmap.wf(),
    ensures
        r@.len() == bitmap.width * bitmap.height,
        forall|i: int|
            0 <= i < r@.len() ==> #[trigger] r@[i] == (if enable_preprocessing && enable_denoising {
                blurred_pixel(
                    bitmap_pixels(*bitmap),
                    bitmap.width as int,
                    bitmap.height as int,
                    i % (bitmap.width as int),
                    i / (bitmap.width as int),
                )
            } else {
                bitmap_pixels(*bitmap)[i]
            }),
{
    let pixels = pixels_of(bitmap);
    if !enable_preprocessing || !enable_denoising {
        return pixels;
    }
    gaussian_blur(&pixels, bitmap.width, bitmap.height)
}

/// Resize RGBA samples with `image::imageops::resize` and the Catmull-Rom
/// filter. The contract claims only that the result holds four samples per
/// pixel of the new size (`resize` allocates its output with
/// `ImageBuffer::new`). The sample values are left unstated: the filter
/// weights come from `f32` arithmetic whose last bits std does not fix, so
/// they are not a function of the arguments alone. The intermediate buffer of
/// `w` by `nh` pixels must fit in memory's address range as well.
#[verifier::external_body]
fn resize_catmull_rom(rgba: &Vec<u8>, w: u32, h: u32, nw: u32, nh: u32) -> (r: Vec<u8>)
    requires
        rgba@.len() == 4 * (w * h),
        4 * (nw * nh) <= usize::MAX,
        4 * (w * nh) <= usize::MAX,
    ensures
        r@.len() == 4 * (nw * nh),
{
    let image: image::RgbaImage = image::ImageBuffer::from_raw(w, h, rgba.clone()).unwrap();
    image::imageops::resize(&image, nw, nh, image::imageops::FilterType::CatmullRom).into_raw()
}

/// The width or height of the tracing grid: `size` times `scale`, saturated
/// at `u32::MAX`.
pub open spec fn scaled_size(size: u32, scale: u32) -> u32 {
    if size * scale > u32::MAX {
        u32::MAX
    } else {
        (size * scale) as u32
    }
}

fn saturating_scale(size: u32, scale: u32) -> (r: u32)
    ensures
        r == scaled_size(size, scale),
{
    proof {
        assert(size * scale <= 0xffff_ffff * 0xffff_ffff) by (nonlinear_arith)
            requires
                size <= 0xffff_ffff,
                scale <= 0xffff_ffff,
        ;
    }
    let product = size as u64 * scale as u64;
    if product > 0xffff_ffff {
        0xffff_ffff
    } else {
        product as u32
    }
}

/// Resample an image to a denser tracing grid: `scale` times as wide and as
/// high (saturating), resized with the Catmull-Rom filter; a copy for scales
/// of at most one. Of the resized samples the contract states how many there
/// are, not their values.
pub fn resample_for_tracing(bitmap: &Bitmap, scale: u32) -> (r: Bitmap)
    requires
        bitmap.wf(),
        scale > 1 ==> 4 * (scaled_size(bitmap.width, scale) * scaled_size(bitmap.height, scale)) <= usize::MAX,
    ensures
        r.wf(),
        scale <= 1 ==> r.width == bitmap.width && r.height == bitmap.height && r.rgba@ == bitmap.rgba@,
        scale > 1 ==> r.width == scaled_size(bitmap.width, scale) && r.height == scaled_size(bitmap.height, scale),
{
    if scale <= 1 {
        let mut rgba: Vec<u8> = Vec::new();
        let mut i: usize = 0;
        while i < bitmap.rgba.len()
            invariant
                i <= bitmap.rgba@.len(),
                rgba@ == bitmap.rgba@.subrange(0, i as int),
            decreases bitmap.rgba@.len() - i,
        {
            rgba.push(bitmap.rgba[i]);
            i += 1;
        }
        proof {
            assert(rgba@ =~= bitmap.rgba@);
        }
        return Bitmap { width: bitmap.width, height: bitmap.height, rgba };
    }
    let nw = saturating_scale(bitmap.width, scale);
    let nh = saturating_scale(bitmap.height, scale);
    proof {
        assert(bitmap.width * scale >= bitmap.width) by (nonlinear_arith)
            requires
                scale > 1,
        ;
        assert(bitmap.width * nh <= nw * nh) by (nonlinear_arith)
            requires
                bitmap.width <= nw,
        ;
    }
    let rgba = resize_catmull_rom(&bitmap.rgba, bitmap.width, bitmap.height, nw, nh);
    Bitmap { width: nw, height: nh, rgba }
}

} // verus!
