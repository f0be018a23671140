//! Label cleanup after palette assignment: anti-aliasing fringes, bridge
//! palette entries and tiny label islands are reassigned to the neighboring
//! colors they blend between.
//!
//! Perceptual color comparisons are supplied by the caller as a closure
//! `no_farther(p, a, b)`, which tells whether color `a` is at most as far from
//! `p` as color `b`. Everything else is integer logic over the label map.

use vstd::prelude::*;

use crate::segment::{count_of, labels_in_palette, label_usage};

verus! {

// ---------------------------------------------------------------------------
// Perceptual comparisons

/// `f` can be asked about any three colors and always gives the same answer
/// for the same colors.
pub open spec fn is_color_order<F: Fn([u8; 3], [u8; 3], [u8; 3]) -> bool>(f: F) -> bool {
    &&& forall|p: [u8; 3], a: [u8; 3], b: [u8; 3]| #[trigger] f.requires((p, a, b))
    &&& forall|p: [u8; 3], a: [u8; 3], b: [u8; 3], r1: bool, r2: bool|
        #[trigger] f.ensures((p, a, b), r1) && #[trigger] f.ensures((p, a, b), r2) ==> r1 == r2
}

/// The answer of `f` for the colors `p`, `a`, `b`: whether `a` is at most as
/// far from `p` as `b`.
pub open spec fn no_farther<F: Fn([u8; 3], [u8; 3], [u8; 3]) -> bool>(
    f: F,
    p: [u8; 3],
    a: [u8; 3],
    b: [u8; 3],
) -> bool {
    choose|r: bool| f.ensures((p, a, b), r)
}

pub(crate) fn ask_no_farther<F: Fn([u8; 3], [u8; 3], [u8; 3]) -> bool>(
    f: &F,
    p: [u8; 3],
    a: [u8; 3],
    b: [u8; 3],
) -> (r: bool)
    requires
        is_color_order(*f),
    ensures
        r == no_farther(*f, p, a, b),
{
    let r = f(p, a, b);
    proof {
        let c = choose|c: bool| f.ensures((p, a, b), c);
        assert(f.ensures((p, a, b), c));
    }
    r
}

// ---------------------------------------------------------------------------
// RGB geometry

/// Squared Euclidean distance of two colors in RGB space.
pub open spec fn rgb_dist_sq(a: [u8; 3], b: [u8; 3]) -> int {
    (a[0] - b[0]) * (a[0] - b[0]) + (a[1] - b[1]) * (a[1] - b[1]) + (a[2] - b[2]) * (a[2] - b[2])
}

/// Dot product of `c - s` and `e - s`.
pub open spec fn rgb_dot(c: [u8; 3], s: [u8; 3], e: [u8; 3]) -> int {
    (c[0] - s[0]) * (e[0] - s[0]) + (c[1] - s[1]) * (e[1] - s[1]) + (c[2] - s[2]) * (e[2] - s[2])
}

/// The squared distance from `c` to the segment from `s` to `e` is at most
/// `limit`. Past an end of the segment the distance is taken to that end;
/// beside it, the squared distance `|c - s|^2 - dot^2 / |e - s|^2` is compared
/// after multiplying through by `|e - s|^2`.
pub open spec fn within_segment_distance(c: [u8; 3], s: [u8; 3], e: [u8; 3], limit: int) -> bool {
    let len_sq = rgb_dist_sq(s, e);
    let dot = rgb_dot(c, s, e);
    if dot <= 0 {
        rgb_dist_sq(c, s) <= limit
    } else if dot >= len_sq {
        rgb_dist_sq(c, e) <= limit
    } else {
        rgb_dist_sq(c, s) * len_sq - dot * dot <= limit * len_sq
    }
}

/// `current` lies between two clearly distinct colors: `primary` and
/// `secondary` are at least 32 apart, and `current` is within 12 of the
/// segment joining them.
pub open spec fn spec_bridges(current: [u8; 3], primary: [u8; 3], secondary: [u8; 3]) -> bool {
    rgb_dist_sq(primary, secondary) >= 1024 && within_segment_distance(current, primary, secondary, 144)
}

fn dist_sq_i64(a: [u8; 3], b: [u8; 3]) -> (r: i64)
    ensures
        r == rgb_dist_sq(a, b),
        0 <= r <= 195075,
{
    let d0 = a[0] as i64 - b[0] as i64;
    let d1 = a[1] as i64 - b[1] as i64;
    let d2 = a[2] as i64 - b[2] as i64;
    assert(0 <= d0 * d0 <= 65025) by (nonlinear_arith)
        requires
            -255 <= d0 <= 255,
    ;
    assert(0 <= d1 * d1 <= 65025) by (nonlinear_arith)
        requires
            -255 <= d1 <= 255,
    ;
    assert(0 <= d2 * d2 <= 65025) by (nonlinear_arith)
        requires
            -255 <= d2 <= 255,
    ;
    d0 * d0 + d1 * d1 + d2 * d2
}

/// Whether `current` is a blend between `primary` and `secondary`: the two
/// are at least 32 apart in RGB space and `current` lies within 12 of the
/// segment joining them.
pub fn bridges_neighbor_colors(current: [u8; 3], primary: [u8; 3], secondary: [u8; 3]) -> (r: bool)
    ensures
        r == spec_bridges(current, primary, secondary),
{
    let span_sq = dist_sq_i64(primary, secondary);
    if span_sq < 1024 {
        return false;
    }
    let v0 = current[0] as i64 - primary[0] as i64;
    let v1 = current[1] as i64 - primary[1] as i64;
    let v2 = current[2] as i64 - primary[2] as i64;
    let s0 = secondary[0] as i64 - primary[0] as i64;
    let s1 = secondary[1] as i64 - primary[1] as i64;
    let s2 = secondary[2] as i64 - primary[2] as i64;
    assert(-65025 <= v0 * s0 <= 65025 && -65025 <= v1 * s1 <= 65025 && -65025 <= v2 * s2 <= 65025)
        by (nonlinear_arith)
        requires
            -255 <= v0 <= 255,
            -255 <= v1 <= 255,
            -255 <= v2 <= 255,
            -255 <= s0 <= 255,
            -255 <= s1 <= 255,
            -255 <= s2 <= 255,
    ;
    let dot = v0 * s0 + v1 * s1 + v2 * s2;
    assert(dot == rgb_dot(current, primary, secondary));
    if dot <= 0 {
        dist_sq_i64(current, primary) <= 144
    } else if dot >= span_sq {
        dist_sq_i64(current, secondary) <= 144
    } else {
        let v_sq = dist_sq_i64(current, primary);
        assert(0 <= v_sq * span_sq <= 195075 * 195075) by (nonlinear_arith)
            requires
                0 <= v_sq <= 195075,
                0 <= span_sq <= 195075,
        ;
        assert(0 <= dot * dot <= 195075 * 195075) by (nonlinear_arith)
            requires
                0 < dot < span_sq,
                span_sq <= 195075,
        ;
        v_sq * span_sq - dot * dot <= 144 * span_sq
    }
}

/// The label that a blended pixel joins: the neighbor color with more
/// support, or on a tie the one that is perceptually no farther from the
/// pixel (the primary one when both are as far).
pub open spec fn bridge_choice<F: Fn([u8; 3], [u8; 3], [u8; 3]) -> bool>(
    f: F,
    pixel: [u8; 3],
    primary_label: u8,
    primary_support: int,
    secondary_label: u8,
    secondary_support: int,
    palette: Seq<[u8; 3]>,
) -> u8 {
    if primary_support > secondary_support {
        primary_label
    } else if primary_support < secondary_support {
        secondary_label
    } else if no_farther(f, pixel, palette[primary_label as int], palette[secondary_label as int]) {
        primary_label
    } else {
        secondary_label
    }
}

/// Choose which of two neighbor labels a bridging pixel joins.
pub fn choose_bridge_replacement<F: Fn([u8; 3], [u8; 3], [u8; 3]) -> bool>(
    pixel: [u8; 3],
    primary_label: u8,
    primary_support: u8,
    secondary_label: u8,
    secondary_support: u8,
    palette: &Vec<[u8; 3]>,
    no_farther_fn: &F,
) -> (r: u8)
    requires
        (primary_label as int) < palette@.len(),
        (secondary_label as int) < palette@.len(),
        is_color_order(*no_farther_fn),
    ensures
        r == bridge_choice(
            *no_farther_fn,
            pixel,
            primary_label,
            primary_support as int,
            secondary_label,
            secondary_support as int,
            palette@,
        ),
{
    if primary_support > secondary_support {
        primary_label
    } else if primary_support < secondary_support {
        secondary_label
    } else if ask_no_farther(
        no_farther_fn,
        pixel,
        palette[primary_label as usize],
        palette[secondary_label as usize],
    ) {
        primary_label
    } else {
        secondary_label
    }
}


// ---------------------------------------------------------------------------
// Neighborhood counts

/// Pixel `(x, y)` lies inside the `w` by `h` image and carries label `l`.
pub open spec fn label_at(labels: Seq<u8>, w: int, h: int, x: int, y: int, l: int) -> bool {
    0 <= x < w && 0 <= y < h && labels[y * w + x] == l
}

/// Horizontal offset of the `k`-th cell around a pixel, in row-major order.
pub open spec fn window_dx(k: int) -> int {
    if k == 0 || k == 3 || k == 5 {
        -1
    } else if k == 1 || k == 6 {
        0
    } else {
        1
    }
}

/// Vertical offset of the `k`-th cell around a pixel, in row-major order.
pub open spec fn window_dy(k: int) -> int {
    if k < 3 {
        -1
    } else if k < 5 {
        0
    } else {
        1
    }
}

/// Number of the first `k` cells around `(x, y)` that lie inside the image
/// and carry label `l`.
pub open spec fn window_count(labels: Seq<u8>, w: int, h: int, x: int, y: int, l: int, k: int) -> int
    decreases k,
{
    if k <= 0 {
        0
    } else {
        window_count(labels, w, h, x, y, l, k - 1) + if label_at(
            labels,
            w,
            h,
            x + window_dx(k - 1),
            y + window_dy(k - 1),
            l,
        ) {
            1int
        } else {
            0int
        }
    }
}

/// Number of the (up to eight) pixels around `(x, y)` that carry label `l`.
pub open spec fn neighbor_count(labels: Seq<u8>, w: int, h: int, x: int, y: int, l: int) -> int {
    window_count(labels, w, h, x, y, l, 8)
}

/// Neighbor entries `(label, count)` are ranked by descending count, then by
/// ascending label.
pub open spec fn ranks_before(a: (u8, u8), b: (u8, u8)) -> bool {
    a.1 > b.1 || (a.1 == b.1 && a.0 < b.0)
}

/// `r` lists every label around `(x, y)` once with its count, ranked.
pub open spec fn is_neighbor_list(labels: Seq<u8>, w: int, h: int, x: int, y: int, r: Seq<(u8, u8)>) -> bool {
    &&& forall|i: int|
        0 <= i < r.len() ==> 0 < (#[trigger] r[i]).1 && r[i].1 == neighbor_count(labels, w, h, x, y, r[i].0 as int)
    &&& forall|l: u8|
        #[trigger] neighbor_count(labels, w, h, x, y, l as int) > 0 ==> exists|i: int|
            0 <= i < r.len() && (#[trigger] r[i]).0 == l
    &&& forall|i: int, j: int| 0 <= i < j < r.len() ==> ranks_before(#[trigger] r[i], #[trigger] r[j])
}

proof fn lemma_window_count_bound(labels: Seq<u8>, w: int, h: int, x: int, y: int, l: int, k: int)
    requires
        0 <= k,
    ensures
        0 <= window_count(labels, w, h, x, y, l, k) <= k,
    decreases k,
{
    if k > 0 {
        lemma_window_count_bound(labels, w, h, x, y, l, k - 1);
    }
}

proof fn lemma_cell_index(x: int, y: int, w: int, h: int)
    requires
        0 <= x < w,
        0 <= y < h,
    ensures
        0 <= y * w + x < w * h,
{
    assert(0 <= y * w) by (nonlinear_arith)
        requires
            0 <= y,
            0 <= w,
    ;
    assert(y * w + x < w * h) by (nonlinear_arith)
        requires
            0 <= x < w,
            0 <= y < h,
    ;
}

fn window_offset(k: usize) -> (r: (i8, i8))
    requires
        k < 8,
    ensures
        r.0 == window_dx(k as int),
        r.1 == window_dy(k as int),
{
    match k {
        0 => (-1, -1),
        1 => (0, -1),
        2 => (1, -1),
        3 => (-1, 0),
        4 => (1, 0),
        5 => (-1, 1),
        6 => (0, 1),
        _ => (1, 1),
    }
}

/// The label of the cell at offset `(dx, dy)` from `(x, y)`, if it lies inside
/// the image.
fn label_at_offset(labels: &Vec<u8>, w: usize, h: usize, x: usize, y: usize, dx: i8, dy: i8) -> (r: Option<u8>)
    requires
        labels@.len() >= w * h,
        x < w,
        y < h,
        -1 <= dx <= 1,
        -1 <= dy <= 1,
    ensures
        match r {
            Some(l) => label_at(labels@, w as int, h as int, x + dx, y + dy, l as int),
            None => !(0 <= x + dx < w && 0 <= y + dy < h),
        },
{
    if (dx < 0 && x == 0) || (dx > 0 && x + 1 >= w) || (dy < 0 && y == 0) || (dy > 0 && y + 1 >= h) {
        return None;
    }
    let nx: usize = if dx < 0 {
        x - 1
    } else if dx > 0 {
        x + 1
    } else {
        x
    };
    let ny: usize = if dy < 0 {
        y - 1
    } else if dy > 0 {
        y + 1
    } else {
        y
    };
    let len = labels.len();
    proof {
        lemma_cell_index(nx as int, ny as int, w as int, h as int);
    }
    Some(labels[ny * w + nx])
}

/// Count the labels of the (up to eight) pixels around `(x, y)`: each label
/// once, with its count, ordered by descending count and then ascending label.
pub fn neighbor_label_counts(labels: &Vec<u8>, width: usize, height: usize, x: usize, y: usize) -> (r: Vec<
    (u8, u8),
>)
    requires
        labels@.len() >= width * height,
        x < width,
        y < height,
    ensures
        r@.len() <= 8,
        is_neighbor_list(labels@, width as int, height as int, x as int, y as int, r@),
{
    let ghost lw = width as int;
    let ghost lh = height as int;
    let mut counts: Vec<(u8, u8)> = Vec::new();
    let mut k: usize = 0;
    while k < 8
        invariant
            lw == width as int,
            lh == height as int,
            labels@.len() >= width * height,
            x < width,
            y < height,
            k <= 8,
            counts@.len() <= k,
            forall|i: int|
                0 <= i < counts@.len() ==> 0 < (#[trigger] counts@[i]).1 && counts@[i].1 == window_count(
                    labels@,
                    lw,
                    lh,
                    x as int,
                    y as int,
                    counts@[i].0 as int,
                    k as int,
                ),
            forall|l: u8|
                #[trigger] window_count(labels@, lw, lh, x as int, y as int, l as int, k as int) > 0 ==> exists|i: int|
                    0 <= i < counts@.len() && (#[trigger] counts@[i]).0 == l,
            forall|i: int, j: int| 0 <= i < j < counts@.len() ==> (#[trigger] counts@[i]).0 != (#[trigger] counts@[j]).0,
        decreases 8 - k,
    {
        let (dx, dy) = window_offset(k);
        let cell = label_at_offset(labels, width, height, x, y, dx, dy);
        proof {
            match cell {
                Some(l) => {
                    assert(label_at(labels@, width as int, height as int, x + dx, y + dy, l as int));
                    assert(label_at(labels@, lw, lh, x + dx, y + dy, l as int));
                },
                None => {},
            }
        }
        let ghost old_counts = counts@;
        proof {
            assert forall|l: u8| true implies #[trigger] window_count(labels@, lw, lh, x as int, y as int, l as int, k + 1)
                == window_count(labels@, lw, lh, x as int, y as int, l as int, k as int) + if label_at(
                labels@,
                lw,
                lh,
                x + window_dx(k as int),
                y + window_dy(k as int),
                l as int,
            ) {
                1int
            } else {
                0int
            } by {
            }
        }
        match cell {
            None => {
                proof {
                    assert(!(0 <= x + dx < width && 0 <= y + dy < height));
                    assert forall|l: u8| true implies #[trigger] window_count(
                        labels@,
                        lw,
                        lh,
                        x as int,
                        y as int,
                        l as int,
                        k + 1,
                    ) == window_count(labels@, lw, lh, x as int, y as int, l as int, k as int) by {
                        assert(!label_at(labels@, lw, lh, x + window_dx(k as int), y + window_dy(k as int), l as int));
                    }
                }
            },
            Some(label) => {
                proof {
                    assert(label_at(labels@, lw, lh, x + dx, y + dy, label as int));
                }
                let mut j: usize = 0;
                let mut found = false;
                while j < counts.len()
                    invariant_except_break
                        !found,
                    invariant
                        j <= counts@.len(),
                        forall|t: int| 0 <= t < j ==> (#[trigger] counts@[t]).0 != label,
                    ensures
                        !found ==> forall|t: int| 0 <= t < counts@.len() ==> (#[trigger] counts@[t]).0 != label,
                        found ==> j < counts@.len() && counts@[j as int].0 == label,
                    decreases counts@.len() - j,
                {
                    if counts[j].0 == label {
                        found = true;
                        break;
                    }
                    j += 1;
                }
                proof {
                    lemma_window_count_bound(labels@, lw, lh, x as int, y as int, label as int, k as int);
                    assert forall|l: u8| true implies #[trigger] window_count(
                        labels@,
                        lw,
                        lh,
                        x as int,
                        y as int,
                        l as int,
                        k + 1,
                    ) == window_count(labels@, lw, lh, x as int, y as int, l as int, k as int) + if l
                        == label {
                        1int
                    } else {
                        0int
                    } by {
                        if l != label {
                            assert(label_at(labels@, lw, lh, x + window_dx(k as int), y + window_dy(k as int), label as int));
                            assert(!label_at(labels@, lw, lh, x + window_dx(k as int), y + window_dy(k as int), l as int));
                        }
                    }
                }
                if found {
                    let c = counts[j].1;
                    counts.set(j, (label, c + 1));
                } else {
                    counts.push((label, 1));
                }
                proof {
                    assert forall|a: int, b: int| 0 <= a < b < counts@.len() implies (#[trigger] counts@[a]).0
                        != (#[trigger] counts@[b]).0 by {
                        if !found && b == old_counts.len() {
                            assert(old_counts[a].0 != label);
                        } else {
                            assert(old_counts[a].0 != old_counts[b].0);
                        }
                    }
                    assert forall|i: int| 0 <= i < counts@.len() implies 0 < (#[trigger] counts@[i]).1
                        && counts@[i].1 == window_count(labels@, lw, lh, x as int, y as int, counts@[i].0 as int, k + 1) by {
                        if i < old_counts.len() && (!found || i != j) {
                            assert(counts@[i] == old_counts[i]);
                            if found {
                                assert(old_counts[i].0 != old_counts[j as int].0);
                            } else {
                                assert(old_counts[i].0 != label);
                            }
                        }
                    }
                    assert forall|l: u8|
                        #[trigger] window_count(labels@, lw, lh, x as int, y as int, l as int, k + 1) > 0 implies exists|
                        i: int,
                    | 0 <= i < counts@.len() && (#[trigger] counts@[i]).0 == l by {
                        if l == label {
                            if found {
                                assert(counts@[j as int].0 == l);
                            } else {
                                assert(counts@[counts@.len() - 1].0 == l);
                            }
                        } else {
                            let i = choose|i: int| 0 <= i < old_counts.len() && (#[trigger] old_counts[i]).0 == l;
                            assert(counts@[i].0 == l);
                        }
                    }
                }
            },
        }
        k += 1;
    }
    sort_neighbor_entries(counts)
}

/// Order distinct-label entries by rank, inserting each entry in front of the
/// first entry that it ranks before.
fn sort_neighbor_entries(counts: Vec<(u8, u8)>) -> (r: Vec<(u8, u8)>)
    requires
        forall|i: int, j: int| 0 <= i < j < counts@.len() ==> (#[trigger] counts@[i]).0 != (#[trigger] counts@[j]).0,
    ensures
        r@.len() == counts@.len(),
        forall|i: int| 0 <= i < r@.len() ==> counts@.contains(#[trigger] r@[i]),
        forall|j: int| 0 <= j < counts@.len() ==> r@.contains(#[trigger] counts@[j]),
        forall|i: int, j: int| 0 <= i < j < r@.len() ==> ranks_before(#[trigger] r@[i], #[trigger] r@[j]),
{
    let n = counts.len();
    let mut out: Vec<(u8, u8)> = Vec::new();
    let ghost mut src: Seq<int> = Seq::empty();
    let ghost mut dst: Seq<int> = Seq::empty();
    let mut k: usize = 0;
    while k < n
        invariant
            n == counts@.len(),
            forall|i: int, j: int| 0 <= i < j < counts@.len() ==> (#[trigger] counts@[i]).0 != (#[trigger] counts@[j]).0,
            k <= n,
            out@.len() == k,
            src.len() == k,
            dst.len() == k,
            forall|i: int| 0 <= i < k ==> 0 <= #[trigger] src[i] < k && out@[i] == counts@[src[i]],
            forall|j: int| 0 <= j < k ==> 0 <= #[trigger] dst[j] < k && out@[dst[j]] == counts@[j],
            forall|i: int, j: int| 0 <= i < j < out@.len() ==> ranks_before(#[trigger] out@[i], #[trigger] out@[j]),
        decreases n - k,
    {
        let e = counts[k];
        let mut p: usize = 0;
        while p < out.len() && !(e.1 > out[p].1 || (e.1 == out[p].1 && e.0 < out[p].0))
            invariant
                p <= out@.len(),
                forall|i: int| 0 <= i < p ==> !ranks_before(e, #[trigger] out@[i]),
            decreases out@.len() - p,
        {
            p += 1;
        }
        let ghost old_out = out@;
        proof {
            assert forall|i: int| 0 <= i < old_out.len() implies (#[trigger] old_out[i]).0 != e.0 by {
                assert(0 <= src[i] < k);
                assert(counts@[src[i]].0 != counts@[k as int].0);
            }
        }
        out.insert(p, e);
        proof {
            lemma_insert_ranked(old_out, e, p as int);
            let ghost pp = p as int;
            let ghost kk = k as int;
            let ghost old_dst = dst;
            assert(out@ == old_out.insert(pp, e));
            src = src.insert(pp, kk);
            dst = Seq::new((kk + 1) as nat, |j: int| if j == kk { pp } else if old_dst[j] >= pp { old_dst[j] + 1 } else { old_dst[j] });
            assert forall|i: int| 0 <= i < kk + 1 implies 0 <= #[trigger] src[i] < kk + 1 && out@[i] == counts@[src[i]] by {
                if i > pp {
                    assert(out@[i] == old_out[i - 1]);
                } else if i < pp {
                    assert(out@[i] == old_out[i]);
                }
            }
            assert forall|j: int| 0 <= j < kk + 1 implies 0 <= #[trigger] dst[j] < kk + 1 && out@[dst[j]] == counts@[j] by {
                if j < kk {
                    let q = old_dst[j];
                    if q >= pp {
                        assert(out@[q + 1] == old_out[q]);
                    } else {
                        assert(out@[q] == old_out[q]);
                    }
                }
            }
        }
        k += 1;
    }
    proof {
        assert forall|i: int| 0 <= i < out@.len() implies counts@.contains(#[trigger] out@[i]) by {
            assert(0 <= src[i] < counts@.len() && out@[i] == counts@[src[i]]);
        }
        assert forall|j: int| 0 <= j < counts@.len() implies out@.contains(#[trigger] counts@[j]) by {
            assert(0 <= dst[j] < out@.len() && out@[dst[j]] == counts@[j]);
        }
    }
    out
}

proof fn lemma_insert_ranked(s: Seq<(u8, u8)>, e: (u8, u8), p: int)
    requires
        0 <= p <= s.len(),
        forall|i: int, j: int| 0 <= i < j < s.len() ==> ranks_before(#[trigger] s[i], #[trigger] s[j]),
        forall|i: int| 0 <= i < p ==> !ranks_before(e, #[trigger] s[i]),
        p < s.len() ==> ranks_before(e, s[p]),
        forall|i: int| 0 <= i < s.len() ==> (#[trigger] s[i]).0 != e.0,
    ensures
        forall|i: int, j: int|
            0 <= i < j < s.len() + 1 ==> ranks_before(#[trigger] s.insert(p, e)[i], #[trigger] s.insert(p, e)[j]),
{
    let t = s.insert(p, e);
    assert forall|a: int, b: int| 0 <= a < b < t.len() implies ranks_before(#[trigger] t[a], #[trigger] t[b]) by {
        if b < p {
            assert(t[a] == s[a] && t[b] == s[b]);
        } else if b == p {
            assert(t[a] == s[a]);
            assert(!ranks_before(e, s[a]));
            assert(s[a].0 != e.0);
        } else if a == p {
            assert(t[b] == s[b - 1]);
            if b - 1 > p {
                assert(ranks_before(s[p], s[b - 1]));
            }
        } else if a < p {
            assert(t[a] == s[a] && t[b] == s[b - 1]);
        } else {
            assert(t[a] == s[a - 1] && t[b] == s[b - 1]);
        }
    }
}


// ---------------------------------------------------------------------------
// Anti-aliasing fringe cleanup

/// Neighbor count `c1` of label `l1` outranks count `c2` of label `l2`: a
/// higher count, or the same count and a lower label.
pub open spec fn outranks(c1: int, l1: int, c2: int, l2: int) -> bool {
    c1 > c2 || (c1 == c2 && l1 < l2)
}

/// `p` and `s` are the two strongest labels around `(x, y)` other than
/// `current`, `p` first, by neighbor count and then by lower label.
pub open spec fn is_top_pair(labels: Seq<u8>, w: int, h: int, x: int, y: int, current: u8, p: u8, s: u8) -> bool {
    &&& p != current
    &&& s != current
    &&& p != s
    &&& neighbor_count(labels, w, h, x, y, p as int) > 0
    &&& neighbor_count(labels, w, h, x, y, s as int) > 0
    &&& outranks(
        neighbor_count(labels, w, h, x, y, p as int),
        p as int,
        neighbor_count(labels, w, h, x, y, s as int),
        s as int,
    )
    &&& forall|q: u8|
        q != current && q != p && q != s && #[trigger] neighbor_count(labels, w, h, x, y, q as int) > 0
            ==> outranks(
            neighbor_count(labels, w, h, x, y, s as int),
            s as int,
            neighbor_count(labels, w, h, x, y, q as int),
            q as int,
        )
}

/// At least two labels other than `current` occur around `(x, y)`.
pub open spec fn has_top_pair(labels: Seq<u8>, w: int, h: int, x: int, y: int, current: u8) -> bool {
    exists|p: u8, s: u8| is_top_pair(labels, w, h, x, y, current, p, s)
}

/// The two strongest labels around `(x, y)` other than `current`.
pub open spec fn top_pair(labels: Seq<u8>, w: int, h: int, x: int, y: int, current: u8) -> (u8, u8) {
    choose|p: u8, s: u8| is_top_pair(labels, w, h, x, y, current, p, s)
}

/// The label pixel `(x, y)` takes in one anti-aliasing pass over `labels`.
///
/// A pixel is a fringe pixel when at most two of its neighbors share its
/// label, the strongest other label has at least three neighbors, the two
/// strongest other labels together at least five, its own label is used at
/// most a third as often as the more used of the two, and its palette color
/// lies between theirs (`spec_bridges`). A fringe pixel joins one of the two
/// (`bridge_choice`); every other pixel keeps its label.
pub open spec fn antialias_label<F: Fn([u8; 3], [u8; 3], [u8; 3]) -> bool>(
    f: F,
    pixels: Seq<[u8; 3]>,
    labels: Seq<u8>,
    palette: Seq<[u8; 3]>,
    w: int,
    h: int,
    x: int,
    y: int,
) -> u8 {
    let current = labels[y * w + x];
    if neighbor_count(labels, w, h, x, y, current as int) > 2 {
        current
    } else if !has_top_pair(labels, w, h, x, y, current) {
        current
    } else {
        let (p, s) = top_pair(labels, w, h, x, y, current);
        let ps = neighbor_count(labels, w, h, x, y, p as int);
        let ss = neighbor_count(labels, w, h, x, y, s as int);
        let up = count_of(labels, p as int);
        let us = count_of(labels, s as int);
        if ps < 3 || ps + ss < 5 {
            current
        } else if count_of(labels, current as int) * 3 > (if up >= us {
            up
        } else {
            us
        }) {
            current
        } else if !spec_bridges(palette[current as int], palette[p as int], palette[s as int]) {
            current
        } else {
            bridge_choice(f, pixels[y * w + x], p, ps, s, ss, palette)
        }
    }
}

/// One anti-aliasing pass: every pixel of the `w` by `h` grid takes its
/// `antialias_label`, computed from the labels before the pass.
pub open spec fn antialias_pass<F: Fn([u8; 3], [u8; 3], [u8; 3]) -> bool>(
    f: F,
    pixels: Seq<[u8; 3]>,
    labels: Seq<u8>,
    palette: Seq<[u8; 3]>,
    w: int,
    h: int,
) -> Seq<u8> {
    Seq::new(
        labels.len(),
        |i: int|
            if i < w * h {
                antialias_label(f, pixels, labels, palette, w, h, i % w, i / w)
            } else {
                labels[i]
            },
    )
}

/// `k` anti-aliasing passes in a row.
pub open spec fn antialias_passes<F: Fn([u8; 3], [u8; 3], [u8; 3]) -> bool>(
    f: F,
    pixels: Seq<[u8; 3]>,
    labels: Seq<u8>,
    palette: Seq<[u8; 3]>,
    w: int,
    h: int,
    k: nat,
) -> Seq<u8>
    decreases k,
{
    if k == 0 {
        labels
    } else {
        antialias_passes(f, pixels, antialias_pass(f, pixels, labels, palette, w, h), palette, w, h, (k - 1) as nat)
    }
}

/// Whether the anti-aliasing cleanup runs at all: a palette of at least three
/// colors, one pixel color per label, and an image of at least two by two.
pub open spec fn antialias_applies(pixels_len: int, labels_len: int, palette_len: int, w: int, h: int) -> bool {
    palette_len >= 3 && labels_len == pixels_len && w >= 2 && h >= 2
}

/// The label map after anti-aliasing cleanup: three passes when it applies,
/// the labels unchanged otherwise.
pub open spec fn spec_cleanup_antialias<F: Fn([u8; 3], [u8; 3], [u8; 3]) -> bool>(
    f: F,
    pixels: Seq<[u8; 3]>,
    labels: Seq<u8>,
    palette: Seq<[u8; 3]>,
    w: int,
    h: int,
) -> Seq<u8> {
    if antialias_applies(pixels.len() as int, labels.len() as int, palette.len() as int, w, h) {
        antialias_passes(f, pixels, labels, palette, w, h, 3)
    } else {
        labels
    }
}

proof fn lemma_window_label_in_palette(labels: Seq<u8>, w: int, h: int, x: int, y: int, l: int, k: int, n: int)
    requires
        labels_in_palette(labels, n),
        labels.len() >= w * h,
        window_count(labels, w, h, x, y, l, k) > 0,
    ensures
        0 <= l < n,
    decreases k,
{
    if k > 0 {
        if window_count(labels, w, h, x, y, l, k - 1) > 0 {
            lemma_window_label_in_palette(labels, w, h, x, y, l, k - 1, n);
        } else {
            let nx = x + window_dx(k - 1);
            let ny = y + window_dy(k - 1);
            lemma_cell_index(nx, ny, w, h);
            assert(labels[ny * w + nx] == l);
        }
    }
}

proof fn lemma_top_pair_unique(
    labels: Seq<u8>,
    w: int,
    h: int,
    x: int,
    y: int,
    current: u8,
    p: u8,
    s: u8,
    p2: u8,
    s2: u8,
)
    requires
        is_top_pair(labels, w, h, x, y, current, p, s),
        is_top_pair(labels, w, h, x, y, current, p2, s2),
    ensures
        p == p2,
        s == s2,
{
    let cp = neighbor_count(labels, w, h, x, y, p as int);
    let cs = neighbor_count(labels, w, h, x, y, s as int);
    let cp2 = neighbor_count(labels, w, h, x, y, p2 as int);
    let cs2 = neighbor_count(labels, w, h, x, y, s2 as int);
    if p2 != p && p2 != s {
        assert(outranks(cs, s as int, cp2, p2 as int));
    }
    if s2 != p && s2 != s {
        assert(outranks(cs, s as int, cs2, s2 as int));
    }
    if p != p2 && p != s2 {
        assert(outranks(cs2, s2 as int, cp, p as int));
    }
    if s != p2 && s != s2 {
        assert(outranks(cs2, s2 as int, cs, s as int));
    }
}


/// An anti-aliasing pass moves a blended fringe pixel off its label: when at
/// most two neighbors share its label, its two strongest other neighbor
/// labels `p` and `s` hold at least three and together at least five
/// neighbors, its label is used at most a third as often as the more used of
/// the two, and its palette color lies between theirs, the pixel joins `p` or
/// `s`.
pub proof fn lemma_antialias_moves_fringe_pixels<F: Fn([u8; 3], [u8; 3], [u8; 3]) -> bool>(
    f: F,
    pixels: Seq<[u8; 3]>,
    labels: Seq<u8>,
    palette: Seq<[u8; 3]>,
    w: int,
    h: int,
    x: int,
    y: int,
    p: u8,
    s: u8,
)
    requires
        is_top_pair(labels, w, h, x, y, labels[y * w + x], p, s),
        neighbor_count(labels, w, h, x, y, labels[y * w + x] as int) <= 2,
        neighbor_count(labels, w, h, x, y, p as int) >= 3,
        neighbor_count(labels, w, h, x, y, p as int) + neighbor_count(labels, w, h, x, y, s as int) >= 5,
        count_of(labels, labels[y * w + x] as int) * 3 <= count_of(labels, p as int)
            || count_of(labels, labels[y * w + x] as int) * 3 <= count_of(labels, s as int),
        spec_bridges(palette[labels[y * w + x] as int], palette[p as int], palette[s as int]),
    ensures
        antialias_label(f, pixels, labels, palette, w, h, x, y) == p || antialias_label(
            f,
            pixels,
            labels,
            palette,
            w,
            h,
            x,
            y,
        ) == s,
        antialias_label(f, pixels, labels, palette, w, h, x, y) != labels[y * w + x],
{
    let current = labels[y * w + x];
    assert(has_top_pair(labels, w, h, x, y, current));
    let (p2, s2) = top_pair(labels, w, h, x, y, current);
    lemma_top_pair_unique(labels, w, h, x, y, current, p, s, p2, s2);
}

/// An anti-aliasing pass changes a pixel's label only to one of its two
/// strongest other neighbor labels, and only when its palette color lies
/// between theirs.
pub proof fn lemma_antialias_changes_only_to_bridged_neighbors<F: Fn([u8; 3], [u8; 3], [u8; 3]) -> bool>(
    f: F,
    pixels: Seq<[u8; 3]>,
    labels: Seq<u8>,
    palette: Seq<[u8; 3]>,
    w: int,
    h: int,
    x: int,
    y: int,
)
    ensures
        antialias_label(f, pixels, labels, palette, w, h, x, y) != labels[y * w + x] ==> exists|p: u8, s: u8|
            #[trigger] is_top_pair(labels, w, h, x, y, labels[y * w + x], p, s) && spec_bridges(
                palette[labels[y * w + x] as int],
                palette[p as int],
                palette[s as int],
            ) && (antialias_label(f, pixels, labels, palette, w, h, x, y) == p || antialias_label(
                f,
                pixels,
                labels,
                palette,
                w,
                h,
                x,
                y,
            ) == s),
{
    let current = labels[y * w + x];
    if antialias_label(f, pixels, labels, palette, w, h, x, y) != current {
        let (p, s) = top_pair(labels, w, h, x, y, current);
        assert(is_top_pair(labels, w, h, x, y, current, p, s));
    }
}

/// The label pixel `(x, y)` takes in an anti-aliasing pass.
fn antialias_replacement<F: Fn([u8; 3], [u8; 3], [u8; 3]) -> bool>(
    pixels: &Vec<[u8; 3]>,
    labels: &Vec<u8>,
    palette: &Vec<[u8; 3]>,
    usage: &Vec<u32>,
    w: usize,
    h: usize,
    x: usize,
    y: usize,
    no_farther_fn: &F,
) -> (r: u8)
    requires
        labels@.len() >= w * h,
        pixels@.len() == labels@.len(),
        x < w,
        y < h,
        labels_in_palette(labels@, palette@.len() as int),
        usage@.len() == palette@.len(),
        forall|l: int| 0 <= l < palette@.len() ==> #[trigger] usage@[l] == count_of(labels@, l),
        is_color_order(*no_farther_fn),
    ensures
        r == antialias_label(*no_farther_fn, pixels@, labels@, palette@, w as int, h as int, x as int, y as int),
        (r as int) < palette@.len(),
{
    let ghost lw = w as int;
    let ghost lh = h as int;
    let len = labels.len();
    proof {
        lemma_cell_index(x as int, y as int, w as int, h as int);
    }
    let index = y * w + x;
    let current = labels[index];
    let neighbors = neighbor_label_counts(labels, w, h, x, y);
    let n = neighbors.len();
    // support of the pixel's own label
    let mut current_support: u8 = 0;
    let mut j: usize = 0;
    while j < n
        invariant
            lw == w as int,
            lh == h as int,
            n == neighbors@.len(),
            j <= n,
            forall|t: int| 0 <= t < n ==> 0 < (#[trigger] neighbors@[t]).1 && neighbors@[t].1 == neighbor_count(labels@, lw, lh, x as int, y as int, neighbors@[t].0 as int),
            (exists|t: int| 0 <= t < j && (#[trigger] neighbors@[t]).0 == current) ==> current_support == neighbor_count(labels@, lw, lh, x as int, y as int, current as int),
            !(exists|t: int| 0 <= t < j && (#[trigger] neighbors@[t]).0 == current) ==> current_support == 0,
        decreases n - j,
    {
        if neighbors[j].0 == current {
            current_support = neighbors[j].1;
        }
        j += 1;
    }
    proof {
        assert(j == n);
        if exists|t: int| 0 <= t < n && (#[trigger] neighbors@[t]).0 == current {
            assert(exists|t: int| 0 <= t < j && (#[trigger] neighbors@[t]).0 == current);
            assert(current_support == neighbor_count(labels@, lw, lh, x as int, y as int, current as int));
        } else {
            assert(!(exists|t: int| 0 <= t < j && (#[trigger] neighbors@[t]).0 == current));
            if neighbor_count(labels@, lw, lh, x as int, y as int, current as int) > 0 {
                let t = choose|t: int| 0 <= t < neighbors@.len() && (#[trigger] neighbors@[t]).0 == current;
                assert(false);
            }
            assert(current_support == 0);
            assert(neighbor_count(labels@, lw, lh, x as int, y as int, current as int) <= 0);
            lemma_window_count_bound(labels@, lw, lh, x as int, y as int, current as int, 8);
        }
        assert(current_support == neighbor_count(labels@, lw, lh, x as int, y as int, current as int));
    }
    if current_support > 2 {
        return current;
    }
    // the first two entries with another label
    let mut i1: usize = n;
    let mut i2: usize = n;
    let mut j: usize = 0;
    while j < n
        invariant
            n == neighbors@.len(),
            j <= n,
            i1 == n || (i1 < j && neighbors@[i1 as int].0 != current),
            i2 == n || (i1 < i2 < j && neighbors@[i2 as int].0 != current),
            i2 < n ==> i1 < n,
            forall|t: int| 0 <= t < j && t < i1 ==> (#[trigger] neighbors@[t]).0 == current,
            forall|t: int| i1 < t < j && t < i2 ==> (#[trigger] neighbors@[t]).0 == current,
        decreases n - j,
    {
        if neighbors[j].0 != current {
            if i1 == n {
                i1 = j;
            } else if i2 == n {
                i2 = j;
            }
        }
        j += 1;
    }
    if i2 == n {
        proof {
            if has_top_pair(labels@, lw, lh, x as int, y as int, current) {
                let (p, s) = choose|p: u8, s: u8| is_top_pair(labels@, lw, lh, x as int, y as int, current, p, s);
                assert(neighbor_count(labels@, lw, lh, x as int, y as int, p as int) > 0);
                assert(neighbor_count(labels@, lw, lh, x as int, y as int, s as int) > 0);
                let a = choose|a: int| 0 <= a < neighbors@.len() && (#[trigger] neighbors@[a]).0 == p;
                let b = choose|b: int| 0 <= b < neighbors@.len() && (#[trigger] neighbors@[b]).0 == s;
                assert(neighbors@[a].0 != current);
                assert(neighbors@[b].0 != current);
                assert(false);
            }
        }
        return current;
    }
    let (primary_label, primary_support) = neighbors[i1];
    let (secondary_label, secondary_support) = neighbors[i2];
    proof {
        assert(ranks_before(neighbors@[i1 as int], neighbors@[i2 as int]));
        assert forall|q: u8|
            q != current && q != primary_label && q != secondary_label && #[trigger] neighbor_count(labels@, lw, lh, x as int, y as int, q as int) > 0
            implies outranks(
                neighbor_count(labels@, lw, lh, x as int, y as int, secondary_label as int),
                secondary_label as int,
                neighbor_count(labels@, lw, lh, x as int, y as int, q as int),
                q as int,
            ) by {
            let t = choose|t: int| 0 <= t < neighbors@.len() && (#[trigger] neighbors@[t]).0 == q;
            assert(neighbors@[t].0 != current);
            assert(t > i2);
            assert(ranks_before(neighbors@[i2 as int], neighbors@[t]));
        }
        assert(is_top_pair(labels@, lw, lh, x as int, y as int, current, primary_label, secondary_label));
        let (p, s) = top_pair(labels@, lw, lh, x as int, y as int, current);
        lemma_top_pair_unique(labels@, lw, lh, x as int, y as int, current, primary_label, secondary_label, p, s);
        lemma_window_label_in_palette(labels@, lw, lh, x as int, y as int, primary_label as int, 8, palette@.len() as int);
        lemma_window_label_in_palette(labels@, lw, lh, x as int, y as int, secondary_label as int, 8, palette@.len() as int);
        lemma_window_count_bound(labels@, lw, lh, x as int, y as int, primary_label as int, 8);
        lemma_window_count_bound(labels@, lw, lh, x as int, y as int, secondary_label as int, 8);
    }
    if primary_support < 3 || primary_support + secondary_support < 5 {
        return current;
    }
    let up = usage[primary_label as usize] as u64;
    let us = usage[secondary_label as usize] as u64;
    let peak = if up >= us {
        up
    } else {
        us
    };
    if usage[current as usize] as u64 * 3 > peak {
        return current;
    }
    if !bridges_neighbor_colors(
        palette[current as usize],
        palette[primary_label as usize],
        palette[secondary_label as usize],
    ) {
        return current;
    }
    choose_bridge_replacement(
        pixels[index],
        primary_label,
        primary_support,
        secondary_label,
        secondary_support,
        palette,
        no_farther_fn,
    )
}


proof fn lemma_antialias_fixed<F: Fn([u8; 3], [u8; 3], [u8; 3]) -> bool>(
    f: F,
    pixels: Seq<[u8; 3]>,
    labels: Seq<u8>,
    palette: Seq<[u8; 3]>,
    w: int,
    h: int,
    k: nat,
)
    requires
        antialias_pass(f, pixels, labels, palette, w, h) == labels,
    ensures
        antialias_passes(f, pixels, labels, palette, w, h, k) == labels,
    decreases k,
{
    if k > 0 {
        lemma_antialias_fixed(f, pixels, labels, palette, w, h, (k - 1) as nat);
    }
}

/// A label map on which an anti-aliasing pass changes nothing comes out of
/// the anti-aliasing cleanup unchanged.
pub proof fn lemma_antialias_cleanup_keeps_settled_labels<F: Fn([u8; 3], [u8; 3], [u8; 3]) -> bool>(
    f: F,
    pixels: Seq<[u8; 3]>,
    labels: Seq<u8>,
    palette: Seq<[u8; 3]>,
    w: int,
    h: int,
)
    requires
        antialias_pass(f, pixels, labels, palette, w, h) == labels,
    ensures
        spec_cleanup_antialias(f, pixels, labels, palette, w, h) == labels,
{
    lemma_antialias_fixed(f, pixels, labels, palette, w, h, 3);
}

proof fn lemma_row_step(y: int, w: int)
    requires
        0 <= y,
        0 < w,
    ensures
        (y + 1) * w == y * w + w,
        0 <= y * w,
{
    assert((y + 1) * w == y * w + w) by (nonlinear_arith);
    assert(0 <= y * w) by (nonlinear_arith)
        requires
            0 <= y,
            0 < w,
    ;
}

proof fn lemma_index_split(i: int, w: int, h: int)
    requires
        0 <= i < w * h,
        0 < w,
    ensures
        0 <= i % w < w,
        0 <= i / w < h,
        i == (i / w) * w + i % w,
{
    vstd::arithmetic::div_mod::lemma_fundamental_div_mod(i, w);
    vstd::arithmetic::div_mod::lemma_mod_bound(i, w);
    vstd::arithmetic::div_mod::lemma_div_pos_is_pos(i, w);
    let q = i / w;
    let r = i % w;
    assert(w * q == q * w) by (nonlinear_arith);
    if q >= h {
        assert(q * w >= h * w) by (nonlinear_arith)
            requires
                q >= h,
                w > 0,
        ;
        assert(w * h == h * w) by (nonlinear_arith);
        assert(false);
    }
}

/// One anti-aliasing pass over the label map, and whether any label changed.
fn antialias_pass_labels<F: Fn([u8; 3], [u8; 3], [u8; 3]) -> bool>(
    pixels: &Vec<[u8; 3]>,
    labels: &Vec<u8>,
    palette: &Vec<[u8; 3]>,
    w: usize,
    h: usize,
    no_farther_fn: &F,
) -> (r: (Vec<u8>, bool))
    requires
        labels@.len() >= w * h,
        pixels@.len() == labels@.len(),
        labels@.len() <= u32::MAX,
        w > 0,
        labels_in_palette(labels@, palette@.len() as int),
        is_color_order(*no_farther_fn),
    ensures
        r.0@ == antialias_pass(*no_farther_fn, pixels@, labels@, palette@, w as int, h as int),
        !r.1 ==> r.0@ == labels@,
        labels_in_palette(r.0@, palette@.len() as int),
{
    let usage = label_usage(labels, palette.len());
    let n = labels.len();
    let mut next: Vec<u8> = Vec::new();
    let mut i: usize = 0;
    while i < n
        invariant
            n == labels@.len(),
            i <= n,
            next@ == labels@.subrange(0, i as int),
        decreases n - i,
    {
        next.push(labels[i]);
        i += 1;
    }
    let ghost lw = w as int;
    let ghost lh = h as int;
    let mut changed = false;
    let mut y: usize = 0;
    let mut row: usize = 0;
    while y < h
        invariant
            lw == w as int,
            lh == h as int,
            n == labels@.len(),
            labels@.len() >= w * h,
            pixels@.len() == labels@.len(),
            labels@.len() <= u32::MAX,
            w > 0,
            labels_in_palette(labels@, palette@.len() as int),
            is_color_order(*no_farther_fn),
            usage@.len() == palette@.len(),
            forall|l: int| 0 <= l < palette@.len() ==> #[trigger] usage@[l] == count_of(labels@, l),
            y <= h,
            row == y * w,
            next@.len() == n,
            forall|t: int|
                0 <= t < row ==> #[trigger] next@[t] == antialias_label(*no_farther_fn, pixels@, labels@, palette@, lw, lh, t % lw, t / lw),
            forall|t: int| row <= t < n ==> #[trigger] next@[t] == labels@[t],
            !changed ==> forall|t: int| 0 <= t < row ==> #[trigger] next@[t] == labels@[t],
            labels_in_palette(next@, palette@.len() as int),
        decreases h - y,
    {
        proof {
            lemma_row_step(y as int, w as int);
            assert(row + w <= w * h) by (nonlinear_arith)
                requires
                    row == y * w,
                    y < h,
                    w > 0,
            ;
        }
        let mut x: usize = 0;
        while x < w
            invariant
                lw == w as int,
                lh == h as int,
                n == labels@.len(),
                labels@.len() >= w * h,
                pixels@.len() == labels@.len(),
                labels@.len() <= u32::MAX,
                w > 0,
                labels_in_palette(labels@, palette@.len() as int),
                is_color_order(*no_farther_fn),
                usage@.len() == palette@.len(),
                forall|l: int| 0 <= l < palette@.len() ==> #[trigger] usage@[l] == count_of(labels@, l),
                y < h,
                row == y * w,
                row + w <= w * h,
                x <= w,
                next@.len() == n,
                forall|t: int|
                    0 <= t < row + x ==> #[trigger] next@[t] == antialias_label(
                        *no_farther_fn,
                        pixels@,
                        labels@,
                        palette@,
                        lw,
                        lh,
                        t % lw,
                        t / lw,
                    ),
                forall|t: int| row + x <= t < n ==> #[trigger] next@[t] == labels@[t],
                !changed ==> forall|t: int| 0 <= t < row + x ==> #[trigger] next@[t] == labels@[t],
                labels_in_palette(next@, palette@.len() as int),
            decreases w - x,
        {
            let index = row + x;
            let replacement = antialias_replacement(pixels, labels, palette, &usage, w, h, x, y, no_farther_fn);
            proof {
                vstd::arithmetic::div_mod::lemma_fundamental_div_mod_converse(index as int, lw, y as int, x as int);
            }
            if replacement != labels[index] {
                changed = true;
            }
            next.set(index, replacement);
            x += 1;
        }
        y += 1;
        row = row + w;
    }
    proof {
        assert(row == w * h) by (nonlinear_arith)
            requires
                row == y * w,
                y == h,
        ;
        assert forall|t: int| 0 <= t < n implies #[trigger] next@[t] == antialias_pass(
            *no_farther_fn,
            pixels@,
            labels@,
            palette@,
            lw,
            lh,
        )[t] by {
            if t < w * h {
                lemma_index_split(t, lw, lh);
            }
        }
        assert(next@ =~= antialias_pass(*no_farther_fn, pixels@, labels@, palette@, lw, lh));
        if !changed {
            assert(next@ =~= labels@);
        }
    }
    (next, changed)
}

/// Reassign anti-aliasing fringe pixels: over up to three passes, every pixel
/// whose color blends between its two strongest neighboring labels joins one
/// of them (see `antialias_label`). Nothing happens for palettes of fewer than
/// three colors, images smaller than two by two, or when the pixel and label
/// counts differ.
pub fn cleanup_antialias_fringes<F: Fn([u8; 3], [u8; 3], [u8; 3]) -> bool>(
    pixels: &Vec<[u8; 3]>,
    labels: &mut Vec<u8>,
    palette: &Vec<[u8; 3]>,
    width: u32,
    height: u32,
    no_farther_fn: &F,
)
    requires
        is_color_order(*no_farther_fn),
        antialias_applies(pixels@.len() as int, old(labels)@.len() as int, palette@.len() as int, width as int, height as int)
            ==> old(labels)@.len() >= width * height && old(labels)@.len() <= u32::MAX && labels_in_palette(
            old(labels)@,
            palette@.len() as int,
        ),
    ensures
        final(labels)@.len() == old(labels)@.len(),
        labels_in_palette(old(labels)@, palette@.len() as int) ==> labels_in_palette(final(labels)@, palette@.len() as int),
        final(labels)@ == spec_cleanup_antialias(
            *no_farther_fn,
            pixels@,
            old(labels)@,
            palette@,
            width as int,
            height as int,
        ),
{
    if palette.len() < 3 || labels.len() != pixels.len() || width < 2 || height < 2 {
        return;
    }
    let w = width as usize;
    let h = height as usize;
    let ghost l0 = labels@;
    let mut pass: usize = 0;
    while pass < 3
        invariant
            is_color_order(*no_farther_fn),
            w == width,
            h == height,
            w >= 2,
            labels@.len() == l0.len(),
            l0.len() >= w * h,
            l0.len() <= u32::MAX,
            pixels@.len() == l0.len(),
            labels_in_palette(labels@, palette@.len() as int),
            pass <= 3,
            antialias_passes(*no_farther_fn, pixels@, l0, palette@, w as int, h as int, 3) == antialias_passes(
                *no_farther_fn,
                pixels@,
                labels@,
                palette@,
                w as int,
                h as int,
                (3 - pass) as nat,
            ),
        ensures
            labels_in_palette(labels@, palette@.len() as int),
            labels@.len() == l0.len(),
            labels@ == antialias_passes(*no_farther_fn, pixels@, l0, palette@, w as int, h as int, 3),
        decreases 3 - pass,
    {
        let (next, changed) = antialias_pass_labels(pixels, labels, palette, w, h, no_farther_fn);
        if !changed {
            proof {
                lemma_antialias_fixed(*no_farther_fn, pixels@, labels@, palette@, w as int, h as int, (3 - pass) as nat);
            }
            break;
        }
        *labels = next;
        pass += 1;
    }
}


// ---------------------------------------------------------------------------
// Bridge palette labels

/// The labels `l1` and `l2` are the distinct labels `a` and `b`, in either order.
pub open spec fn pair_is(l1: u8, l2: u8, a: int, b: int) -> bool {
    a != b && ((l1 == a && l2 == b) || (l1 == b && l2 == a))
}

/// Number of label pairs `{a, b}` among the horizontally and vertically
/// adjacent pixel pairs whose first (left or upper) pixel has an index below `k`.
pub open spec fn adjacency_prefix(labels: Seq<u8>, w: int, h: int, a: int, b: int, k: int) -> int
    decreases k,
{
    if k <= 0 {
        0
    } else {
        let i = k - 1;
        adjacency_prefix(labels, w, h, a, b, k - 1) + (if i % w + 1 < w && pair_is(labels[i], labels[i + 1], a, b) {
            1int
        } else {
            0int
        }) + (if i / w + 1 < h && pair_is(labels[i], labels[i + w], a, b) {
            1int
        } else {
            0int
        })
    }
}

/// Number of horizontally or vertically adjacent pixel pairs of the `w` by `h`
/// image that carry the distinct labels `a` and `b`.
pub open spec fn adjacency_count(labels: Seq<u8>, w: int, h: int, a: int, b: int) -> int {
    adjacency_prefix(labels, w, h, a, b, w * h)
}

/// Position of the count for labels `(a, b)` in a flattened `n` by `n` table.
pub open spec fn adjacency_slot(n: int, a: int, b: int) -> int {
    a * n + b
}

proof fn lemma_adjacency_prefix_bound(labels: Seq<u8>, w: int, h: int, a: int, b: int, k: int)
    requires
        0 <= k,
    ensures
        0 <= adjacency_prefix(labels, w, h, a, b, k) <= 2 * k,
    decreases k,
{
    if k > 0 {
        lemma_adjacency_prefix_bound(labels, w, h, a, b, k - 1);
    }
}

proof fn lemma_slot_bound(n: int, a: int, b: int)
    requires
        0 <= a < n,
        0 <= b < n,
    ensures
        0 <= adjacency_slot(n, a, b) < n * n,
{
    assert(0 <= a * n + b < n * n) by (nonlinear_arith)
        requires
            0 <= a < n,
            0 <= b < n,
    ;
}

proof fn lemma_slot_injective(n: int, a: int, b: int, c: int, d: int)
    requires
        0 <= a < n,
        0 <= b < n,
        0 <= c < n,
        0 <= d < n,
        adjacency_slot(n, a, b) == adjacency_slot(n, c, d),
    ensures
        a == c,
        b == d,
{
    if a < c {
        assert(a * n + b < c * n) by (nonlinear_arith)
            requires
                a < c,
                0 <= b < n,
        ;
    }
    if c < a {
        assert(c * n + d < a * n) by (nonlinear_arith)
            requires
                c < a,
                0 <= d < n,
        ;
    }
}

/// Count one more adjacency between two different labels, in both directions.
pub fn increment_label_adjacency(adjacency: &mut Vec<u64>, palette_len: usize, left: u8, right: u8)
    requires
        (left as int) < palette_len,
        (right as int) < palette_len,
        old(adjacency)@.len() == palette_len * palette_len,
        old(adjacency)@[adjacency_slot(palette_len as int, left as int, right as int)] < u64::MAX,
        old(adjacency)@[adjacency_slot(palette_len as int, right as int, left as int)] < u64::MAX,
    ensures
        final(adjacency)@.len() == old(adjacency)@.len(),
        forall|a: int, b: int|
            0 <= a < palette_len && 0 <= b < palette_len ==> #[trigger] final(adjacency)@[adjacency_slot(
                palette_len as int,
                a,
                b,
            )] == old(adjacency)@[adjacency_slot(palette_len as int, a, b)] + if pair_is(left, right, a, b) {
                1int
            } else {
                0int
            },
{
    let ghost n = palette_len as int;
    if left == right {
        return;
    }
    let l = left as usize;
    let r = right as usize;
    let size = adjacency.len();
    proof {
        lemma_slot_bound(n, l as int, r as int);
        lemma_slot_bound(n, r as int, l as int);
        assert(l * palette_len + r == adjacency_slot(n, l as int, r as int));
        assert(r * palette_len + l == adjacency_slot(n, r as int, l as int));
    }
    let lr = l * palette_len + r;
    let rl = r * palette_len + l;
    let ghost a0 = adjacency@;
    proof {
        if lr == rl {
            lemma_slot_injective(n, l as int, r as int, r as int, l as int);
        }
    }
    adjacency.set(lr, adjacency[lr] + 1);
    adjacency.set(rl, adjacency[rl] + 1);
    proof {
        assert forall|a: int, b: int| 0 <= a < n && 0 <= b < n implies #[trigger] adjacency@[adjacency_slot(n, a, b)]
            == a0[adjacency_slot(n, a, b)] + if pair_is(left, right, a, b) {
            1int
        } else {
            0int
        } by {
            lemma_slot_bound(n, a, b);
            if adjacency_slot(n, a, b) == lr as int {
                lemma_slot_injective(n, a, b, l as int, r as int);
            } else if adjacency_slot(n, a, b) == rl as int {
                lemma_slot_injective(n, a, b, r as int, l as int);
            } else {
                if a == l && b == r {
                    assert(adjacency_slot(n, a, b) == lr);
                }
                if a == r && b == l {
                    assert(adjacency_slot(n, a, b) == rl);
                }
            }
        }
    }
}

/// Count, for every pair of labels, how many horizontally or vertically
/// adjacent pixel pairs carry them; the table is flattened row by row.
pub fn label_adjacency(labels: &Vec<u8>, width: usize, height: usize, palette_len: usize) -> (r: Vec<u64>)
    requires
        labels@.len() >= width * height,
        width * height <= u32::MAX,
        palette_len * palette_len <= usize::MAX,
        labels_in_palette(labels@, palette_len as int),
    ensures
        r@.len() == palette_len * palette_len,
        forall|a: int, b: int|
            0 <= a < palette_len && 0 <= b < palette_len ==> #[trigger] r@[adjacency_slot(palette_len as int, a, b)]
                == adjacency_count(labels@, width as int, height as int, a, b),
{
    let ghost n = palette_len as int;
    let ghost lw = width as int;
    let ghost lh = height as int;
    let size = palette_len * palette_len;
    let mut adjacency: Vec<u64> = Vec::new();
    let mut t: usize = 0;
    while t < size
        invariant
            t <= size,
            adjacency@.len() == t,
            forall|j: int| 0 <= j < t ==> adjacency@[j] == 0,
        decreases size - t,
    {
        adjacency.push(0);
        t += 1;
    }
    if width == 0 {
        proof {
            assert forall|a: int, b: int| 0 <= a < n && 0 <= b < n implies #[trigger] adjacency@[adjacency_slot(n, a, b)]
                == adjacency_count(labels@, lw, lh, a, b) by {
                lemma_slot_bound(n, a, b);
            }
        }
        return adjacency;
    }
    let mut y: usize = 0;
    let mut row: usize = 0;
    proof {
        assert forall|a: int, b: int| 0 <= a < n && 0 <= b < n implies #[trigger] adjacency@[adjacency_slot(n, a, b)]
            == adjacency_prefix(labels@, lw, lh, a, b, 0) by {
            lemma_slot_bound(n, a, b);
        }
    }
    while y < height
        invariant
            n == palette_len as int,
            lw == width as int,
            lh == height as int,
            width > 0,
            labels@.len() >= width * height,
            width * height <= u32::MAX,
            labels_in_palette(labels@, n),
            size == palette_len * palette_len,
            adjacency@.len() == size,
            y <= height,
            row == y * width,
            forall|a: int, b: int|
                0 <= a < n && 0 <= b < n ==> #[trigger] adjacency@[adjacency_slot(n, a, b)] == adjacency_prefix(
                    labels@,
                    lw,
                    lh,
                    a,
                    b,
                    row as int,
                ),
        decreases height - y,
    {
        proof {
            lemma_row_step(y as int, lw);
            assert(row + width <= width * height) by (nonlinear_arith)
                requires
                    row == y * width,
                    y < height,
                    width > 0,
            ;
        }
        let mut x: usize = 0;
        while x < width
            invariant
                n == palette_len as int,
                lw == width as int,
                lh == height as int,
                width > 0,
                labels@.len() >= width * height,
                width * height <= u32::MAX,
                labels_in_palette(labels@, n),
                size == palette_len * palette_len,
                adjacency@.len() == size,
                y < height,
                row == y * width,
                row + width <= width * height,
                x <= width,
                forall|a: int, b: int|
                    0 <= a < n && 0 <= b < n ==> #[trigger] adjacency@[adjacency_slot(n, a, b)] == adjacency_prefix(
                        labels@,
                        lw,
                        lh,
                        a,
                        b,
                        row + x,
                    ),
            decreases width - x,
        {
            let index = row + x;
            let current = labels[index];
            proof {
                vstd::arithmetic::div_mod::lemma_fundamental_div_mod_converse(index as int, lw, y as int, x as int);
            }
            let ghost before = adjacency@;
            let ghost mid = adjacency@;
            if x + 1 < width {
                let right = labels[index + 1];
                proof {
                    assert forall|a: int, b: int| 0 <= a < n && 0 <= b < n implies #[trigger] adjacency@[adjacency_slot(n, a, b)] < u64::MAX by {
                        lemma_adjacency_prefix_bound(labels@, lw, lh, a, b, index as int);
                    }
                }
                increment_label_adjacency(&mut adjacency, palette_len, current, right);
            }
            proof {
                mid = adjacency@;
            }
            if y + 1 < height {
                proof {
                    assert(index + width < width * height) by (nonlinear_arith)
                        requires
                            index == y * width + x,
                            x < width,
                            y + 1 < height,
                    ;
                }
                let below = labels[index + width];
                proof {
                    assert forall|a: int, b: int| 0 <= a < n && 0 <= b < n implies #[trigger] adjacency@[adjacency_slot(n, a, b)] < u64::MAX by {
                        lemma_adjacency_prefix_bound(labels@, lw, lh, a, b, index as int);
                    }
                }
                increment_label_adjacency(&mut adjacency, palette_len, current, below);
            }
            proof {
                assert forall|a: int, b: int| 0 <= a < n && 0 <= b < n implies #[trigger] adjacency@[adjacency_slot(n, a, b)]
                    == adjacency_prefix(labels@, lw, lh, a, b, index + 1) by {
                    assert(before[adjacency_slot(n, a, b)] == adjacency_prefix(labels@, lw, lh, a, b, index as int));
                }
            }
            x += 1;
        }
        y += 1;
        row = row + width;
    }
    proof {
        assert(row == width * height) by (nonlinear_arith)
            requires
                row == y * width,
                y == height,
        ;
    }
    adjacency
}


/// Sum of `adjacency_count(c, l)` over the labels `l < m` other than `c`.
pub open spec fn adjacency_row_total(labels: Seq<u8>, w: int, h: int, c: int, m: int) -> int
    decreases m,
{
    if m <= 0 {
        0
    } else {
        adjacency_row_total(labels, w, h, c, m - 1) + if m - 1 != c {
            adjacency_count(labels, w, h, c, m - 1)
        } else {
            0int
        }
    }
}

/// `p` and `s` are the two palette indices below `n` other than `c` that
/// border label `c` most often, `p` first; ties go to the lower index.
pub open spec fn is_adjacent_top_pair(labels: Seq<u8>, w: int, h: int, n: int, c: int, p: int, s: int) -> bool {
    &&& 0 <= p < n
    &&& 0 <= s < n
    &&& p != c
    &&& s != c
    &&& p != s
    &&& adjacency_count(labels, w, h, c, p) > 0
    &&& adjacency_count(labels, w, h, c, s) > 0
    &&& outranks(adjacency_count(labels, w, h, c, p), p, adjacency_count(labels, w, h, c, s), s)
    &&& forall|q: int|
        0 <= q < n && q != c && q != p && q != s && #[trigger] adjacency_count(labels, w, h, c, q) > 0
            ==> outranks(adjacency_count(labels, w, h, c, s), s, adjacency_count(labels, w, h, c, q), q)
}

/// At least two other labels border label `c`.
pub open spec fn has_adjacent_top_pair(labels: Seq<u8>, w: int, h: int, n: int, c: int) -> bool {
    exists|p: int, s: int| is_adjacent_top_pair(labels, w, h, n, c, p, s)
}

/// The two labels that border label `c` most often.
pub open spec fn adjacent_top_pair(labels: Seq<u8>, w: int, h: int, n: int, c: int) -> (int, int) {
    choose|p: int, s: int| is_adjacent_top_pair(labels, w, h, n, c, p, s)
}

/// The plan for palette entry `c`: the two labels its pixels should be split
/// between, when `c` is a bridge color. That is the case when `c` is used,
/// covers at most a twelfth of the image, at least four fifths of its
/// adjacencies are with its two main neighbor labels, it is used at most a
/// third as often as those two together, and its color lies between theirs.
pub open spec fn bridge_plan(labels: Seq<u8>, w: int, h: int, palette: Seq<[u8; 3]>, c: int) -> Option<(u8, u8)> {
    let n = palette.len() as int;
    let usage = count_of(labels, c);
    if usage == 0 || usage * 12 > labels.len() {
        None
    } else if !has_adjacent_top_pair(labels, w, h, n, c) {
        None
    } else {
        let (p, s) = adjacent_top_pair(labels, w, h, n, c);
        let dominant = adjacency_count(labels, w, h, c, p) + adjacency_count(labels, w, h, c, s);
        if dominant * 5 < adjacency_row_total(labels, w, h, c, n) * 4 {
            None
        } else if usage * 3 > count_of(labels, p) + count_of(labels, s) {
            None
        } else if !spec_bridges(palette[c], palette[p], palette[s]) {
            None
        } else {
            Some((p as u8, s as u8))
        }
    }
}

proof fn lemma_adjacent_top_pair_unique(
    labels: Seq<u8>,
    w: int,
    h: int,
    n: int,
    c: int,
    p: int,
    s: int,
    p2: int,
    s2: int,
)
    requires
        is_adjacent_top_pair(labels, w, h, n, c, p, s),
        is_adjacent_top_pair(labels, w, h, n, c, p2, s2),
    ensures
        p == p2,
        s == s2,
{
    let cp = adjacency_count(labels, w, h, c, p);
    let cs = adjacency_count(labels, w, h, c, s);
    let cp2 = adjacency_count(labels, w, h, c, p2);
    let cs2 = adjacency_count(labels, w, h, c, s2);
    if p2 != p && p2 != s {
        assert(outranks(cs, s, cp2, p2));
    }
    if s2 != p && s2 != s {
        assert(outranks(cs, s, cs2, s2));
    }
    if p != p2 && p != s2 {
        assert(outranks(cs2, s2, cp, p));
    }
    if s != p2 && s != s2 {
        assert(outranks(cs2, s2, cs, s));
    }
}

/// The bridge plan of palette entry `c`, from the label usage and the
/// adjacency table.
fn bridge_plan_for(
    labels: &Vec<u8>,
    usage: &Vec<u32>,
    adjacency: &Vec<u64>,
    w: usize,
    h: usize,
    palette: &Vec<[u8; 3]>,
    c: usize,
) -> (r: Option<(u8, u8)>)
    requires
        labels@.len() >= w * h,
        w * h <= u32::MAX,
        labels@.len() <= u32::MAX,
        palette@.len() * palette@.len() <= usize::MAX,
        c < palette@.len(),
        usage@.len() == palette@.len(),
        forall|l: int| 0 <= l < palette@.len() ==> #[trigger] usage@[l] == count_of(labels@, l),
        adjacency@.len() == palette@.len() * palette@.len(),
        forall|a: int, b: int|
            0 <= a < palette@.len() && 0 <= b < palette@.len() ==> #[trigger] adjacency@[adjacency_slot(
                palette@.len() as int,
                a,
                b,
            )] == adjacency_count(labels@, w as int, h as int, a, b),
    ensures
        r == bridge_plan(labels@, w as int, h as int, palette@, c as int),
        r matches Some((p, s)) ==> (p as int) < palette@.len() && (s as int) < palette@.len(),
{
    let ghost lw = w as int;
    let ghost lh = h as int;
    let n = palette.len();
    let ghost nn = n as int;
    let usage_c = usage[c] as u64;
    let total = labels.len() as u64;
    if usage_c == 0 || usage_c * 12 > total {
        return None;
    }
    proof {
        lemma_slot_bound(nn, c as int, 0);
        assert(c * n + n <= n * n) by (nonlinear_arith)
            requires
                c < n,
        ;
    }
    proof {
        if n > 0x1_0000_0000 {
            assert(n * n > 0x1_0000_0000 * 0x1_0000_0000) by (nonlinear_arith)
                requires
                    n > 0x1_0000_0000,
            ;
        }
    }
    let base = c * n;
    let mut best: usize = n;
    let mut second: usize = n;
    let mut row_total: u128 = 0;
    let mut l: usize = 0;
    while l < n
        invariant
            lw == w as int,
            lh == h as int,
            nn == n as int,
            n == palette@.len(),
            c < n,
            n * n <= usize::MAX,
            n <= 0x1_0000_0000,
            base == c * n,
            base + n <= n * n,
            adjacency@.len() == n * n,
            w * h <= u32::MAX,
            forall|a: int, b: int|
                0 <= a < n && 0 <= b < n ==> #[trigger] adjacency@[adjacency_slot(nn, a, b)] == adjacency_count(
                    labels@,
                    lw,
                    lh,
                    a,
                    b,
                ),
            l <= n,
            row_total == adjacency_row_total(labels@, lw, lh, c as int, l as int),
            row_total <= l * 2 * (w * h),
            best <= n,
            second <= n,
            best == n ==> forall|q: int|
                0 <= q < l && q != c ==> #[trigger] adjacency_count(labels@, lw, lh, c as int, q) == 0,
            best < n ==> best < l && best != c && adjacency_count(labels@, lw, lh, c as int, best as int) > 0,
            best < n ==> forall|q: int|
                0 <= q < l && q != c && q != best && #[trigger] adjacency_count(labels@, lw, lh, c as int, q) > 0
                    ==> outranks(
                    adjacency_count(labels@, lw, lh, c as int, best as int),
                    best as int,
                    adjacency_count(labels@, lw, lh, c as int, q),
                    q,
                ),
            second < n ==> best < n && second < l && second != c && second != best && adjacency_count(
                labels@,
                lw,
                lh,
                c as int,
                second as int,
            ) > 0,
            best < n && second == n ==> forall|q: int|
                0 <= q < l && q != c && q != best ==> #[trigger] adjacency_count(labels@, lw, lh, c as int, q) == 0,
            second < n ==> forall|q: int|
                0 <= q < l && q != c && q != best && q != second && #[trigger] adjacency_count(
                    labels@,
                    lw,
                    lh,
                    c as int,
                    q,
                ) > 0 ==> outranks(
                    adjacency_count(labels@, lw, lh, c as int, second as int),
                    second as int,
                    adjacency_count(labels@, lw, lh, c as int, q),
                    q,
                ),
        decreases n - l,
    {
        proof {
            assert(base + l == adjacency_slot(nn, c as int, l as int));
            lemma_adjacency_prefix_bound(labels@, lw, lh, c as int, l as int, lw * lh);
        }
        let count = adjacency[base + l];
        let ghost cq = adjacency_count(labels@, lw, lh, c as int, l as int);
        assert(count == cq);
        proof {
            assert((l + 1) * 2 * (w * h) == l * 2 * (w * h) + 2 * (w * h)) by (nonlinear_arith);
        }
        if l != c {
            proof {
                assert(l * 2 * (w * h) <= 0x1_0000_0000 * 2 * 0xffff_ffff) by (nonlinear_arith)
                    requires
                        l <= 0x1_0000_0000,
                        w * h <= 0xffff_ffff,
                ;
            }
            row_total = row_total + count as u128;
        }
        if l != c && count > 0 {
            if best == n {
                best = l;
            } else {
                proof {
                    assert(base + best == adjacency_slot(nn, c as int, best as int));
                }
                let best_count = adjacency[base + best];
                if count > best_count {
                    second = best;
                    best = l;
                } else {
                    if second == n {
                        second = l;
                    } else {
                        proof {
                            assert(base + second == adjacency_slot(nn, c as int, second as int));
                        }
                        let second_count = adjacency[base + second];
                        if count > second_count {
                            second = l;
                        }
                    }
                }
            }
        }
        l += 1;
    }
    assert(l == n);
    if second == n {
        proof {
            if has_adjacent_top_pair(labels@, lw, lh, nn, c as int) {
                let (p, s) = choose|p: int, s: int| is_adjacent_top_pair(labels@, lw, lh, nn, c as int, p, s);
                assert(adjacency_count(labels@, lw, lh, c as int, p) > 0);
                assert(adjacency_count(labels@, lw, lh, c as int, s) > 0);
                assert(false);
            }
        }
        return None;
    }
    proof {
        assert(outranks(
            adjacency_count(labels@, lw, lh, c as int, best as int),
            best as int,
            adjacency_count(labels@, lw, lh, c as int, second as int),
            second as int,
        ));
        assert(is_adjacent_top_pair(labels@, lw, lh, nn, c as int, best as int, second as int));
        let (p, s) = adjacent_top_pair(labels@, lw, lh, nn, c as int);
        lemma_adjacent_top_pair_unique(labels@, lw, lh, nn, c as int, best as int, second as int, p, s);
        assert(base + best == adjacency_slot(nn, c as int, best as int));
        assert(base + second == adjacency_slot(nn, c as int, second as int));
        lemma_adjacency_prefix_bound(labels@, lw, lh, c as int, best as int, lw * lh);
        lemma_adjacency_prefix_bound(labels@, lw, lh, c as int, second as int, lw * lh);
        assert(row_total * 4 <= n * 8 * (w * h)) by (nonlinear_arith)
            requires
                row_total <= n * 2 * (w * h),
        ;
        assert(n * 8 * (w * h) <= 0x1_0000_0000 * 8 * 0xffff_ffff) by (nonlinear_arith)
            requires
                n * n <= usize::MAX,
                w * h <= u32::MAX,
                usize::MAX <= u64::MAX,
        ;
    }
    let dominant = adjacency[base + best] as u128 + adjacency[base + second] as u128;
    if dominant * 5 < row_total * 4 {
        return None;
    }
    if usage_c * 3 > usage[best] as u64 + usage[second] as u64 {
        return None;
    }
    if !bridges_neighbor_colors(palette[c], palette[best], palette[second]) {
        return None;
    }
    Some((best as u8, second as u8))
}


/// The bridge plans of all palette entries.
pub open spec fn bridge_plans(labels: Seq<u8>, w: int, h: int, palette: Seq<[u8; 3]>) -> Seq<Option<(u8, u8)>> {
    Seq::new(palette.len(), |c: int| bridge_plan(labels, w, h, palette, c))
}

/// The label that pixel `i` of `labels` takes when its label has a bridge
/// plan: the planned label with more support around the pixel, or on a tie
/// the perceptually closer one (`bridge_choice`).
pub open spec fn collapse_label<F: Fn([u8; 3], [u8; 3], [u8; 3]) -> bool>(
    f: F,
    pixels: Seq<[u8; 3]>,
    labels: Seq<u8>,
    plans: Seq<Option<(u8, u8)>>,
    palette: Seq<[u8; 3]>,
    w: int,
    h: int,
    i: int,
) -> u8 {
    match plans[labels[i] as int] {
        None => labels[i],
        Some((p, s)) => bridge_choice(
            f,
            pixels[i],
            p,
            neighbor_count(labels, w, h, i % w, i / w, p as int),
            s,
            neighbor_count(labels, w, h, i % w, i / w, s as int),
            palette,
        ),
    }
}

/// The labels after visiting the first `k` pixels in order, each taking its
/// `collapse_label` from the labels as they stand when it is visited.
pub open spec fn collapse_scan<F: Fn([u8; 3], [u8; 3], [u8; 3]) -> bool>(
    f: F,
    pixels: Seq<[u8; 3]>,
    labels: Seq<u8>,
    plans: Seq<Option<(u8, u8)>>,
    palette: Seq<[u8; 3]>,
    w: int,
    h: int,
    k: int,
) -> Seq<u8>
    decreases k,
{
    if k <= 0 {
        labels
    } else {
        let m = collapse_scan(f, pixels, labels, plans, palette, w, h, k - 1);
        m.update(k - 1, collapse_label(f, pixels, m, plans, palette, w, h, k - 1))
    }
}

/// One bridge-label pass: plans are made from the labels before the pass,
/// then every pixel of the grid is visited in order.
pub open spec fn collapse_pass<F: Fn([u8; 3], [u8; 3], [u8; 3]) -> bool>(
    f: F,
    pixels: Seq<[u8; 3]>,
    labels: Seq<u8>,
    palette: Seq<[u8; 3]>,
    w: int,
    h: int,
) -> Seq<u8> {
    collapse_scan(f, pixels, labels, bridge_plans(labels, w, h, palette), palette, w, h, w * h)
}

/// `k` bridge-label passes in a row.
pub open spec fn collapse_passes<F: Fn([u8; 3], [u8; 3], [u8; 3]) -> bool>(
    f: F,
    pixels: Seq<[u8; 3]>,
    labels: Seq<u8>,
    palette: Seq<[u8; 3]>,
    w: int,
    h: int,
    k: nat,
) -> Seq<u8>
    decreases k,
{
    if k == 0 {
        labels
    } else {
        collapse_passes(f, pixels, collapse_pass(f, pixels, labels, palette, w, h), palette, w, h, (k - 1) as nat)
    }
}

/// The label map after collapsing bridge palette labels: two passes when the
/// cleanup applies (the same conditions as for anti-aliasing), the labels
/// unchanged otherwise.
pub open spec fn spec_collapse_bridge_labels<F: Fn([u8; 3], [u8; 3], [u8; 3]) -> bool>(
    f: F,
    pixels: Seq<[u8; 3]>,
    labels: Seq<u8>,
    palette: Seq<[u8; 3]>,
    w: int,
    h: int,
) -> Seq<u8> {
    if antialias_applies(pixels.len() as int, labels.len() as int, palette.len() as int, w, h) {
        collapse_passes(f, pixels, labels, palette, w, h, 2)
    } else {
        labels
    }
}

proof fn lemma_collapse_scan_idle<F: Fn([u8; 3], [u8; 3], [u8; 3]) -> bool>(
    f: F,
    pixels: Seq<[u8; 3]>,
    labels: Seq<u8>,
    plans: Seq<Option<(u8, u8)>>,
    palette: Seq<[u8; 3]>,
    w: int,
    h: int,
    k: int,
)
    requires
        0 <= k <= labels.len(),
        labels_in_palette(labels, plans.len() as int),
        forall|c: int| 0 <= c < plans.len() ==> (#[trigger] plans[c]) is None,
    ensures
        collapse_scan(f, pixels, labels, plans, palette, w, h, k) == labels,
    decreases k,
{
    if k > 0 {
        lemma_collapse_scan_idle(f, pixels, labels, plans, palette, w, h, k - 1);
        assert(plans[labels[k - 1] as int] is None);
        assert(labels.update(k - 1, labels[k - 1]) =~= labels);
    }
}

proof fn lemma_collapse_fixed<F: Fn([u8; 3], [u8; 3], [u8; 3]) -> bool>(
    f: F,
    pixels: Seq<[u8; 3]>,
    labels: Seq<u8>,
    palette: Seq<[u8; 3]>,
    w: int,
    h: int,
    k: nat,
)
    requires
        collapse_pass(f, pixels, labels, palette, w, h) == labels,
    ensures
        collapse_passes(f, pixels, labels, palette, w, h, k) == labels,
    decreases k,
{
    if k > 0 {
        lemma_collapse_fixed(f, pixels, labels, palette, w, h, (k - 1) as nat);
    }
}

/// A label map on which a bridge-collapse pass changes nothing comes out of
/// the bridge collapse unchanged.
pub proof fn lemma_bridge_collapse_keeps_settled_labels<F: Fn([u8; 3], [u8; 3], [u8; 3]) -> bool>(
    f: F,
    pixels: Seq<[u8; 3]>,
    labels: Seq<u8>,
    palette: Seq<[u8; 3]>,
    w: int,
    h: int,
)
    requires
        collapse_pass(f, pixels, labels, palette, w, h) == labels,
    ensures
        spec_collapse_bridge_labels(f, pixels, labels, palette, w, h) == labels,
{
    lemma_collapse_fixed(f, pixels, labels, palette, w, h, 2);
}

/// The support of `label` in a neighbor list.
fn support_in(neighbors: &Vec<(u8, u8)>, label: u8, labels: Ghost<Seq<u8>>, w: Ghost<int>, h: Ghost<int>, x: Ghost<int>, y: Ghost<int>) -> (r: u8)
    requires
        is_neighbor_list(labels@, w@, h@, x@, y@, neighbors@),
    ensures
        r == neighbor_count(labels@, w@, h@, x@, y@, label as int),
{
    let n = neighbors.len();
    let mut support: u8 = 0;
    let mut j: usize = 0;
    while j < n
        invariant
            n == neighbors@.len(),
            j <= n,
            forall|t: int| 0 <= t < n ==> 0 < (#[trigger] neighbors@[t]).1 && neighbors@[t].1 == neighbor_count(labels@, w@, h@, x@, y@, neighbors@[t].0 as int),
            (exists|t: int| 0 <= t < j && (#[trigger] neighbors@[t]).0 == label) ==> support == neighbor_count(labels@, w@, h@, x@, y@, label as int),
            !(exists|t: int| 0 <= t < j && (#[trigger] neighbors@[t]).0 == label) ==> support == 0,
        decreases n - j,
    {
        if neighbors[j].0 == label {
            support = neighbors[j].1;
        }
        j += 1;
    }
    proof {
        lemma_window_count_bound(labels@, w@, h@, x@, y@, label as int, 8);
        if !(exists|t: int| 0 <= t < j && (#[trigger] neighbors@[t]).0 == label) {
            if neighbor_count(labels@, w@, h@, x@, y@, label as int) > 0 {
                let t = choose|t: int| 0 <= t < neighbors@.len() && (#[trigger] neighbors@[t]).0 == label;
                assert(false);
            }
        }
    }
    support
}

/// Choose which planned label a pixel of a bridge color joins: the one with
/// more support around it, or on a tie (no support included) the
/// perceptually closer one.
pub fn choose_component_bridge_replacement<F: Fn([u8; 3], [u8; 3], [u8; 3]) -> bool>(
    pixel: [u8; 3],
    x: usize,
    y: usize,
    labels: &Vec<u8>,
    width: usize,
    height: usize,
    primary_label: u8,
    secondary_label: u8,
    palette: &Vec<[u8; 3]>,
    no_farther_fn: &F,
) -> (r: u8)
    requires
        labels@.len() >= width * height,
        x < width,
        y < height,
        (primary_label as int) < palette@.len(),
        (secondary_label as int) < palette@.len(),
        is_color_order(*no_farther_fn),
    ensures
        r == bridge_choice(
            *no_farther_fn,
            pixel,
            primary_label,
            neighbor_count(labels@, width as int, height as int, x as int, y as int, primary_label as int),
            secondary_label,
            neighbor_count(labels@, width as int, height as int, x as int, y as int, secondary_label as int),
            palette@,
        ),
{
    let neighbors = neighbor_label_counts(labels, width, height, x, y);
    let primary_support = support_in(
        &neighbors,
        primary_label,
        Ghost(labels@),
        Ghost(width as int),
        Ghost(height as int),
        Ghost(x as int),
        Ghost(y as int),
    );
    let secondary_support = support_in(
        &neighbors,
        secondary_label,
        Ghost(labels@),
        Ghost(width as int),
        Ghost(height as int),
        Ghost(x as int),
        Ghost(y as int),
    );
    if primary_support == 0 && secondary_support == 0 {
        if ask_no_farther(
            no_farther_fn,
            pixel,
            palette[primary_label as usize],
            palette[secondary_label as usize],
        ) {
            primary_label
        } else {
            secondary_label
        }
    } else {
        choose_bridge_replacement(
            pixel,
            primary_label,
            primary_support,
            secondary_label,
            secondary_support,
            palette,
            no_farther_fn,
        )
    }
}


/// One bridge-label pass over the label map, in place; whether any label changed.
fn collapse_pass_labels<F: Fn([u8; 3], [u8; 3], [u8; 3]) -> bool>(
    pixels: &Vec<[u8; 3]>,
    labels: &mut Vec<u8>,
    palette: &Vec<[u8; 3]>,
    w: usize,
    h: usize,
    no_farther_fn: &F,
) -> (changed: bool)
    requires
        old(labels)@.len() >= w * h,
        pixels@.len() == old(labels)@.len(),
        old(labels)@.len() <= u32::MAX,
        w > 0,
        palette@.len() * palette@.len() <= usize::MAX,
        labels_in_palette(old(labels)@, palette@.len() as int),
        is_color_order(*no_farther_fn),
    ensures
        final(labels)@ == collapse_pass(*no_farther_fn, pixels@, old(labels)@, palette@, w as int, h as int),
        final(labels)@.len() == old(labels)@.len(),
        !changed ==> final(labels)@ == old(labels)@,
        labels_in_palette(final(labels)@, palette@.len() as int),
{
    let ghost l0 = labels@;
    let ghost lw = w as int;
    let ghost lh = h as int;
    let n = palette.len();
    let usage = label_usage(labels, n);
    let adjacency = label_adjacency(labels, w, h, n);
    let mut plans: Vec<Option<(u8, u8)>> = Vec::new();
    let mut any_plan = false;
    let mut c: usize = 0;
    while c < n
        invariant
            labels@ == l0,
            l0.len() >= w * h,
            l0.len() <= u32::MAX,
            n == palette@.len(),
            n * n <= usize::MAX,
            usage@.len() == n,
            forall|l: int| 0 <= l < n ==> #[trigger] usage@[l] == count_of(l0, l),
            adjacency@.len() == n * n,
            forall|a: int, b: int|
                0 <= a < n && 0 <= b < n ==> #[trigger] adjacency@[adjacency_slot(n as int, a, b)] == adjacency_count(
                    l0,
                    w as int,
                    h as int,
                    a,
                    b,
                ),
            c <= n,
            plans@.len() == c,
            forall|d: int| 0 <= d < c ==> #[trigger] plans@[d] == bridge_plan(l0, w as int, h as int, palette@, d),
            forall|d: int| 0 <= d < c ==> (#[trigger] plans@[d] matches Some((p, s)) ==> (p as int) < n && (s as int) < n),
            !any_plan ==> forall|d: int| 0 <= d < c ==> (#[trigger] plans@[d]) is None,
        decreases n - c,
    {
        let plan = bridge_plan_for(labels, &usage, &adjacency, w, h, palette, c);
        if plan.is_some() {
            any_plan = true;
        }
        plans.push(plan);
        c += 1;
    }
    proof {
        assert(plans@ =~= bridge_plans(l0, lw, lh, palette@));
    }
    if !any_plan {
        proof {
            lemma_collapse_scan_idle(*no_farther_fn, pixels@, l0, plans@, palette@, lw, lh, lw * lh);
        }
        return false;
    }
    let mut changed = false;
    let mut y: usize = 0;
    let mut row: usize = 0;
    while y < h
        invariant
            lw == w as int,
            lh == h as int,
            l0.len() >= w * h,
            l0.len() <= u32::MAX,
            labels@.len() == l0.len(),
            pixels@.len() == l0.len(),
            w > 0,
            n == palette@.len(),
            is_color_order(*no_farther_fn),
            plans@ == bridge_plans(l0, lw, lh, palette@),
            forall|d: int| 0 <= d < n ==> (#[trigger] plans@[d] matches Some((p, s)) ==> (p as int) < n && (s as int) < n),
            labels_in_palette(labels@, n as int),
            y <= h,
            row == y * w,
            labels@ == collapse_scan(*no_farther_fn, pixels@, l0, plans@, palette@, lw, lh, row as int),
            !changed ==> labels@ == l0,
        decreases h - y,
    {
        proof {
            lemma_row_step(y as int, w as int);
            assert(row + w <= w * h) by (nonlinear_arith)
                requires
                    row == y * w,
                    y < h,
                    w > 0,
            ;
        }
        let mut x: usize = 0;
        while x < w
            invariant
                lw == w as int,
                lh == h as int,
                l0.len() >= w * h,
                l0.len() <= u32::MAX,
                labels@.len() == l0.len(),
                pixels@.len() == l0.len(),
                w > 0,
                n == palette@.len(),
                is_color_order(*no_farther_fn),
                plans@ == bridge_plans(l0, lw, lh, palette@),
                forall|d: int| 0 <= d < n ==> (#[trigger] plans@[d] matches Some((p, s)) ==> (p as int) < n && (s as int) < n),
                labels_in_palette(labels@, n as int),
                y < h,
                row == y * w,
                row + w <= w * h,
                x <= w,
                labels@ == collapse_scan(*no_farther_fn, pixels@, l0, plans@, palette@, lw, lh, row + x),
                !changed ==> labels@ == l0,
            decreases w - x,
        {
            let index = row + x;
            proof {
                vstd::arithmetic::div_mod::lemma_fundamental_div_mod_converse(index as int, lw, y as int, x as int);
            }
            let ghost m = labels@;
            let current = labels[index];
            match plans[current as usize] {
                None => {
                    proof {
                        assert(m.update(index as int, m[index as int]) =~= m);
                    }
                },
                Some((primary_label, secondary_label)) => {
                    let replacement = choose_component_bridge_replacement(
                        pixels[index],
                        x,
                        y,
                        labels,
                        w,
                        h,
                        primary_label,
                        secondary_label,
                        palette,
                        no_farther_fn,
                    );
                    if replacement != labels[index] {
                        labels.set(index, replacement);
                        changed = true;
                    } else {
                        proof {
                            assert(m.update(index as int, m[index as int]) =~= m);
                        }
                    }
                },
            }
            x += 1;
        }
        y += 1;
        row = row + w;
    }
    proof {
        assert(row == w * h) by (nonlinear_arith)
            requires
                row == y * w,
                y == h,
        ;
    }
    changed
}

/// Collapse bridge palette labels: a rarely used palette entry whose pixels
/// mostly border two other labels and whose color lies between theirs is
/// split between those two, over up to two passes (see `bridge_plan` and
/// `collapse_label`). Nothing happens for palettes of fewer than three
/// colors, images smaller than two by two, or when the pixel and label
/// counts differ.
pub fn collapse_bridge_palette_labels<F: Fn([u8; 3], [u8; 3], [u8; 3]) -> bool>(
    pixels: &Vec<[u8; 3]>,
    labels: &mut Vec<u8>,
    palette: &Vec<[u8; 3]>,
    width: u32,
    height: u32,
    no_farther_fn: &F,
)
    requires
        is_color_order(*no_farther_fn),
        antialias_applies(pixels@.len() as int, old(labels)@.len() as int, palette@.len() as int, width as int, height as int)
            ==> old(labels)@.len() >= width * height && old(labels)@.len() <= u32::MAX && palette@.len()
            * palette@.len() <= usize::MAX && labels_in_palette(old(labels)@, palette@.len() as int),
    ensures
        final(labels)@.len() == old(labels)@.len(),
        labels_in_palette(old(labels)@, palette@.len() as int) ==> labels_in_palette(final(labels)@, palette@.len() as int),
        final(labels)@ == spec_collapse_bridge_labels(
            *no_farther_fn,
            pixels@,
            old(labels)@,
            palette@,
            width as int,
            height as int,
        ),
{
    if palette.len() < 3 || labels.len() != pixels.len() || width < 2 || height < 2 {
        return;
    }
    let w = width as usize;
    let h = height as usize;
    let ghost l0 = labels@;
    let mut pass: usize = 0;
    while pass < 2
        invariant
            is_color_order(*no_farther_fn),
            w == width,
            h == height,
            w >= 2,
            labels@.len() == l0.len(),
            l0.len() >= w * h,
            l0.len() <= u32::MAX,
            pixels@.len() == l0.len(),
            palette@.len() * palette@.len() <= usize::MAX,
            labels_in_palette(labels@, palette@.len() as int),
            pass <= 2,
            collapse_passes(*no_farther_fn, pixels@, l0, palette@, w as int, h as int, 2) == collapse_passes(
                *no_farther_fn,
                pixels@,
                labels@,
                palette@,
                w as int,
                h as int,
                (2 - pass) as nat,
            ),
        ensures
            labels_in_palette(labels@, palette@.len() as int),
            labels@.len() == l0.len(),
            labels@ == collapse_passes(*no_farther_fn, pixels@, l0, palette@, w as int, h as int, 2),
        decreases 2 - pass,
    {
        let ghost before = labels@;
        let changed = collapse_pass_labels(pixels, labels, palette, w, h, no_farther_fn);
        if !changed {
            proof {
                lemma_collapse_fixed(*no_farther_fn, pixels@, before, palette@, w as int, h as int, (2 - pass) as nat);
            }
            break;
        }
        pass += 1;
    }
}

} // verus!
