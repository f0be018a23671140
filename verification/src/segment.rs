//! Palette segmentation: palette colors, label maps and the integer decisions
//! of palette fitting and label cleanup.

use vstd::prelude::*;
use vstd::string::*;

use crate::cleanup::{
    ask_no_farther, cleanup_antialias_fringes, collapse_bridge_palette_labels, is_color_order, no_farther,
    spec_cleanup_antialias, spec_collapse_bridge_labels,
};
use crate::components::{cleanup_tiny_label_components, spec_cleanup_tiny_components};
use crate::config::{
    cuts_at, hex_digits, hex_pairs_cut_cleanly, hex_value, is_white_space, pair_value, spec_parse_hex_color, trim_end,
    trim_start, trimmed, utf8_len, utf8_width,
};
use crate::sort::{merge_sort, sorted_by_key, SortKey};

verus! {

/// An entry in the color palette.
#[derive(Debug, Clone, Copy, PartialEq, Eq, Hash, Structural)]
pub struct PaletteColor {
    /// Red channel.
    pub r: u8,
    /// Green channel.
    pub g: u8,
    /// Blue channel.
    pub b: u8,
}

/// Result of color segmentation.
pub struct SegmentationResult {
    /// Color palette (up to `color_count` entries).
    pub palette: Vec<PaletteColor>,
    /// Label map: same dimensions as the source image; each value is a palette index.
    pub labels: Vec<u8>,
    /// Image width.
    pub width: u32,
    /// Image height.
    pub height: u32,
}

/// The lower-case hexadecimal digit for `n`.
pub open spec fn hex_char(n: int) -> char {
    if n < 10 {
        (48 + n) as char
    } else {
        (87 + n) as char
    }
}

/// The CSS hex notation `#rrggbb` of a color.
pub open spec fn hex_string(c: PaletteColor) -> Seq<char> {
    seq![
        '#',
        hex_char((c.r / 16) as int),
        hex_char((c.r % 16) as int),
        hex_char((c.g / 16) as int),
        hex_char((c.g % 16) as int),
        hex_char((c.b / 16) as int),
        hex_char((c.b % 16) as int),
    ]
}

fn hex_digit(n: u8) -> (r: &'static str)
    requires
        n < 16,
    ensures
        r@ == seq![hex_char(n as int)],
{
    match n {
        0 => {
            proof {
                reveal_strlit("0");
            }
            "0"
        },
        1 => {
            proof {
                reveal_strlit("1");
            }
            "1"
        },
        2 => {
            proof {
                reveal_strlit("2");
            }
            "2"
        },
        3 => {
            proof {
                reveal_strlit("3");
            }
            "3"
        },
        4 => {
            proof {
                reveal_strlit("4");
            }
            "4"
        },
        5 => {
            proof {
                reveal_strlit("5");
            }
            "5"
        },
        6 => {
            proof {
                reveal_strlit("6");
            }
            "6"
        },
        7 => {
            proof {
                reveal_strlit("7");
            }
            "7"
        },
        8 => {
            proof {
                reveal_strlit("8");
            }
            "8"
        },
        9 => {
            proof {
                reveal_strlit("9");
            }
            "9"
        },
        10 => {
            proof {
                reveal_strlit("a");
            }
            "a"
        },
        11 => {
            proof {
                reveal_strlit("b");
            }
            "b"
        },
        12 => {
            proof {
                reveal_strlit("c");
            }
            "c"
        },
        13 => {
            proof {
                reveal_strlit("d");
            }
            "d"
        },
        14 => {
            proof {
                reveal_strlit("e");
            }
            "e"
        },
        _ => {
            proof {
                reveal_strlit("f");
            }
            "f"
        },
    }
}

impl PaletteColor {
    /// Returns the CSS hex color string `#rrggbb`.
    pub fn to_hex(&self) -> (r: String)
        ensures
            r@ == hex_string(*self),
    {
        let mut s = String::new();
        proof {
            reveal_strlit("#");
        }
        s.append("#");
        s.append(hex_digit(self.r / 16));
        s.append(hex_digit(self.r % 16));
        s.append(hex_digit(self.g / 16));
        s.append(hex_digit(self.g % 16));
        s.append(hex_digit(self.b / 16));
        s.append(hex_digit(self.b % 16));
        proof {
            assert(s@ =~= hex_string(*self));
        }
        s
    }
}

proof fn lemma_hex_char(n: int)
    requires
        0 <= n < 16,
    ensures
        hex_value(hex_char(n)) == Some(n),
        (hex_char(n) as u32) < 0x80,
        !is_white_space(hex_char(n)),
        hex_char(n) != '#',
{
    if n < 10 {
        assert(((48 + n) as char) as u32 == 48 + n);
    } else {
        assert(((87 + n) as char) as u32 == 87 + n);
    }
}

proof fn lemma_ascii_utf8_len(s: Seq<char>)
    requires
        forall|i: int| 0 <= i < s.len() ==> (#[trigger] s[i] as u32) < 0x80,
    ensures
        utf8_len(s) == s.len(),
    decreases s.len(),
{
    if s.len() > 0 {
        lemma_ascii_utf8_len(s.drop_last());
        assert(utf8_width(s.last()) == 1) by {
            assert(s[s.len() - 1] == s.last());
        }
    }
}

proof fn lemma_pair_of_byte(v: u8)
    ensures
        pair_value(hex_char((v / 16) as int), hex_char((v % 16) as int)) == Some(v),
{
    lemma_hex_char((v / 16) as int);
    lemma_hex_char((v % 16) as int);
    assert((v / 16) * 16 + v % 16 == v);
}

/// The hex notation of a palette color parses back to the same color.
pub proof fn lemma_hex_string_parses_back(c: PaletteColor)
    ensures
        spec_parse_hex_color(hex_string(c)) == Ok::<(u8, u8, u8), Seq<char>>((c.r, c.g, c.b)),
        hex_pairs_cut_cleanly(hex_string(c)),
{
    let s = hex_string(c);
    lemma_hex_char((c.r / 16) as int);
    lemma_hex_char((c.r % 16) as int);
    lemma_hex_char((c.g / 16) as int);
    lemma_hex_char((c.g % 16) as int);
    lemma_hex_char((c.b / 16) as int);
    lemma_hex_char((c.b % 16) as int);
    assert('#' as u32 == 35);
    assert(!is_white_space(s[0]));
    assert(trim_start(s) == s);
    assert(s.last() == s[6]);
    assert(trim_end(s) == s);
    assert(trimmed(s) == s);
    let hex = hex_digits(s);
    assert(hex =~= s.drop_first());
    assert forall|i: int| 0 <= i < hex.len() implies (#[trigger] hex[i] as u32) < 0x80 by {
        assert(hex[i] == s[i + 1]);
    }
    lemma_ascii_utf8_len(hex);
    lemma_pair_of_byte(c.r);
    lemma_pair_of_byte(c.g);
    lemma_pair_of_byte(c.b);
    assert(hex[0] == s[1] && hex[1] == s[2] && hex[2] == s[3] && hex[3] == s[4] && hex[4] == s[5] && hex[5] == s[6]);
    lemma_ascii_utf8_len(hex.take(2));
    lemma_ascii_utf8_len(hex.take(4));
    assert(utf8_len(hex.take(2)) == 2);
    assert(utf8_len(hex.take(4)) == 4);
    assert(cuts_at(hex, 2));
    assert(cuts_at(hex, 4));
}

/// The upper-case hexadecimal digit for `n`.
pub open spec fn upper_hex_char(n: int) -> char {
    if n < 10 {
        (48 + n) as char
    } else {
        (55 + n) as char
    }
}

/// The notation `#RRGGBB` of a color, with upper-case digits.
pub open spec fn upper_hex_string(c: PaletteColor) -> Seq<char> {
    seq![
        '#',
        upper_hex_char((c.r / 16) as int),
        upper_hex_char((c.r % 16) as int),
        upper_hex_char((c.g / 16) as int),
        upper_hex_char((c.g % 16) as int),
        upper_hex_char((c.b / 16) as int),
        upper_hex_char((c.b % 16) as int),
    ]
}

/// Every hexadecimal digit, in either case, has its value: the digits for
/// `n` in lower and in upper case both read as `n`.
pub proof fn lemma_hex_digits_of_either_case(n: int)
    requires
        0 <= n < 16,
    ensures
        hex_value(hex_char(n)) == Some(n),
        hex_value(upper_hex_char(n)) == Some(n),
{
    lemma_hex_char(n);
    lemma_upper_hex_char(n);
}

proof fn lemma_upper_hex_char(n: int)
    requires
        0 <= n < 16,
    ensures
        hex_value(upper_hex_char(n)) == Some(n),
        (upper_hex_char(n) as u32) < 0x80,
        !is_white_space(upper_hex_char(n)),
        upper_hex_char(n) != '#',
{
    if n < 10 {
        assert(((48 + n) as char) as u32 == 48 + n);
    } else {
        assert(((55 + n) as char) as u32 == 55 + n);
    }
}

proof fn lemma_pair_of_byte_upper(v: u8)
    ensures
        pair_value(upper_hex_char((v / 16) as int), upper_hex_char((v % 16) as int)) == Some(v),
{
    lemma_upper_hex_char((v / 16) as int);
    lemma_upper_hex_char((v % 16) as int);
    assert((v / 16) * 16 + v % 16 == v);
}

/// The upper-case notation `#RRGGBB` of a color parses back to the same color.
pub proof fn lemma_upper_hex_string_parses_back(c: PaletteColor)
    ensures
        spec_parse_hex_color(upper_hex_string(c)) == Ok::<(u8, u8, u8), Seq<char>>((c.r, c.g, c.b)),
        hex_pairs_cut_cleanly(upper_hex_string(c)),
{
    let s = upper_hex_string(c);
    lemma_upper_hex_char((c.r / 16) as int);
    lemma_upper_hex_char((c.r % 16) as int);
    lemma_upper_hex_char((c.g / 16) as int);
    lemma_upper_hex_char((c.g % 16) as int);
    lemma_upper_hex_char((c.b / 16) as int);
    lemma_upper_hex_char((c.b % 16) as int);
    assert('#' as u32 == 35);
    assert(!is_white_space(s[0]));
    assert(trim_start(s) == s);
    assert(s.last() == s[6]);
    assert(trim_end(s) == s);
    assert(trimmed(s) == s);
    let hex = hex_digits(s);
    assert(hex =~= s.drop_first());
    assert forall|i: int| 0 <= i < hex.len() implies (#[trigger] hex[i] as u32) < 0x80 by {
        assert(hex[i] == s[i + 1]);
    }
    lemma_ascii_utf8_len(hex);
    lemma_pair_of_byte_upper(c.r);
    lemma_pair_of_byte_upper(c.g);
    lemma_pair_of_byte_upper(c.b);
    assert(hex[0] == s[1] && hex[1] == s[2] && hex[2] == s[3] && hex[3] == s[4] && hex[4] == s[5] && hex[5] == s[6]);
    lemma_ascii_utf8_len(hex.take(2));
    lemma_ascii_utf8_len(hex.take(4));
    assert(utf8_len(hex.take(2)) == 2);
    assert(utf8_len(hex.take(4)) == 4);
    assert(cuts_at(hex, 2));
    assert(cuts_at(hex, 4));
}

/// Running per-channel sums of a set of colors, for a rounded mean.
#[derive(Debug, Clone, Copy, PartialEq, Eq)]
pub struct PaletteAccumulator {
    sum_r: u64,
    sum_g: u64,
    sum_b: u64,
    count: u32,
}

/// Rounded mean `(sum + count / 2) / count` of one channel.
pub open spec fn rounded_mean(sum: int, count: int) -> int {
    (sum + count / 2) / count
}

impl PaletteAccumulator {
    /// Number of accumulated colors.
    pub closed spec fn spec_count(&self) -> nat {
        self.count as nat
    }

    /// Sums of the accumulated red, green and blue channels.
    pub closed spec fn spec_sums(&self) -> (int, int, int) {
        (self.sum_r as int, self.sum_g as int, self.sum_b as int)
    }

    /// Each channel sum is at most 255 per accumulated color.
    pub open spec fn wf(&self) -> bool {
        &&& self.spec_sums().0 <= 255 * self.spec_count()
        &&& self.spec_sums().1 <= 255 * self.spec_count()
        &&& self.spec_sums().2 <= 255 * self.spec_count()
    }

    /// An empty accumulator.
    pub fn new() -> (r: Self)
        ensures
            r.wf(),
            r.spec_count() == 0,
            r.spec_sums() == (0int, 0int, 0int),
    {
        PaletteAccumulator { sum_r: 0, sum_g: 0, sum_b: 0, count: 0 }
    }

    /// Add one color.
    pub fn push(&mut self, pixel: [u8; 3])
        requires
            old(self).wf(),
            old(self).spec_count() < u32::MAX,
        ensures
            final(self).wf(),
            final(self).spec_count() == old(self).spec_count() + 1,
            final(self).spec_sums() == (
                old(self).spec_sums().0 + pixel[0],
                old(self).spec_sums().1 + pixel[1],
                old(self).spec_sums().2 + pixel[2],
            ),
    {
        self.sum_r = self.sum_r + pixel[0] as u64;
        self.sum_g = self.sum_g + pixel[1] as u64;
        self.sum_b = self.sum_b + pixel[2] as u64;
        self.count = self.count + 1;
    }

    /// The rounded mean color, or `fallback` when nothing was accumulated.
    pub fn average_or(self, fallback: [u8; 3]) -> (r: [u8; 3])
        requires
            self.wf(),
        ensures
            self.spec_count() == 0 ==> r == fallback,
            self.spec_count() > 0 ==> r[0] == rounded_mean(self.spec_sums().0, self.spec_count() as int)
                && r[1] == rounded_mean(self.spec_sums().1, self.spec_count() as int) && r[2] == rounded_mean(
                self.spec_sums().2,
                self.spec_count() as int,
            ),
    {
        if self.count == 0 {
            return fallback;
        }
        let count = self.count as u64;
        proof {
            lemma_rounded_mean_byte(self.sum_r as int, count as int);
            lemma_rounded_mean_byte(self.sum_g as int, count as int);
            lemma_rounded_mean_byte(self.sum_b as int, count as int);
        }
        [
            ((self.sum_r + (count / 2)) / count) as u8,
            ((self.sum_g + (count / 2)) / count) as u8,
            ((self.sum_b + (count / 2)) / count) as u8,
        ]
    }
}

proof fn lemma_rounded_mean_byte(sum: int, count: int)
    requires
        0 < count,
        0 <= sum <= 255 * count,
    ensures
        0 <= rounded_mean(sum, count) <= 255,
{
    let q = (sum + count / 2) / count;
    assert(sum + count / 2 < 256 * count) by (nonlinear_arith)
        requires
            0 < count,
            0 <= sum <= 255 * count,
    ;
    vstd::arithmetic::div_mod::lemma_div_is_ordered(sum + count / 2, 256 * count - 1, count);
    vstd::arithmetic::div_mod::lemma_div_multiples_vanish_fancy(256, count - 1, count);
    assert((256 * count - 1) / count <= 255) by (nonlinear_arith)
        requires
            0 < count,
    {
        vstd::arithmetic::div_mod::lemma_fundamental_div_mod(256 * count - 1, count);
        vstd::arithmetic::div_mod::lemma_mod_bound(256 * count - 1, count);
    }
    vstd::arithmetic::div_mod::lemma_div_pos_is_pos(sum + count / 2, count);
}

/// The color of a pixel after compositing: opaque enough pixels keep their
/// color, the others become white.
pub open spec fn spec_composite_pixel(pixel: [u8; 4], alpha_threshold: u8) -> [u8; 3] {
    if pixel[3] >= alpha_threshold {
        [pixel[0], pixel[1], pixel[2]]
    } else {
        [255u8, 255u8, 255u8]
    }
}

/// Drop the alpha channel, turning pixels below the alpha threshold white.
pub fn composite_pixel(pixel: [u8; 4], alpha_threshold: u8) -> (r: [u8; 3])
    ensures
        r == spec_composite_pixel(pixel, alpha_threshold),
{
    if pixel[3] >= alpha_threshold {
        [pixel[0], pixel[1], pixel[2]]
    } else {
        [255, 255, 255]
    }
}

/// Number of occurrences of `l` in `s`.
pub open spec fn count_of(s: Seq<u8>, l: int) -> nat
    decreases s.len(),
{
    if s.len() == 0 {
        0
    } else {
        count_of(s.drop_last(), l) + (if s.last() == l {
            1nat
        } else {
            0nat
        })
    }
}

proof fn lemma_count_of_bound(s: Seq<u8>, l: int)
    ensures
        count_of(s, l) <= s.len(),
    decreases s.len(),
{
    if s.len() > 0 {
        lemma_count_of_bound(s.drop_last(), l);
    }
}

/// Every label indexes the palette.
pub open spec fn labels_in_palette(labels: Seq<u8>, palette_len: int) -> bool {
    forall|i: int| 0 <= i < labels.len() ==> (#[trigger] labels[i]) < palette_len
}

/// Count how often each palette index occurs in the label map.
pub fn label_usage(labels: &Vec<u8>, palette_len: usize) -> (r: Vec<u32>)
    requires
        labels_in_palette(labels@, palette_len as int),
        labels@.len() <= u32::MAX,
    ensures
        r@.len() == palette_len,
        forall|l: int| 0 <= l < palette_len ==> #[trigger] r@[l] == count_of(labels@, l),
{
    let mut usage: Vec<u32> = Vec::new();
    let mut k: usize = 0;
    while k < palette_len
        invariant
            k <= palette_len,
            usage@.len() == k,
            forall|l: int| 0 <= l < k ==> usage@[l] == 0,
        decreases palette_len - k,
    {
        usage.push(0);
        k += 1;
    }
    let mut i: usize = 0;
    while i < labels.len()
        invariant
            labels_in_palette(labels@, palette_len as int),
            labels@.len() <= u32::MAX,
            i <= labels@.len(),
            usage@.len() == palette_len,
            forall|l: int| 0 <= l < palette_len ==> #[trigger] usage@[l] == count_of(labels@.subrange(0, i as int), l),
        decreases labels@.len() - i,
    {
        let l = labels[i] as usize;
        proof {
            assert(labels@.subrange(0, i + 1).drop_last() =~= labels@.subrange(0, i as int));
            lemma_count_of_bound(labels@.subrange(0, i as int), l as int);
        }
        usage.set(l, usage[l] + 1);
        i += 1;
    }
    proof {
        assert(labels@.subrange(0, labels@.len() as int) =~= labels@);
    }
    usage
}

/// Total usage count of the palette indices below `m`.
pub open spec fn counts_total(labels: Seq<u8>, m: int) -> int
    decreases m,
{
    if m <= 0 {
        0
    } else {
        counts_total(labels, m - 1) + count_of(labels, m - 1)
    }
}

proof fn lemma_counts_total_last(labels: Seq<u8>, m: int)
    requires
        labels.len() > 0,
        m >= 0,
    ensures
        counts_total(labels, m) == counts_total(labels.drop_last(), m) + (if (labels.last() as int) < m {
            1int
        } else {
            0int
        }),
    decreases m,
{
    if m > 0 {
        lemma_counts_total_last(labels, m - 1);
    }
}

/// The usage counts of a label map add up to its length: every label counts
/// once, for the palette index it carries.
pub proof fn lemma_usage_counts_total(labels: Seq<u8>, palette_len: int)
    requires
        palette_len >= 0,
        labels_in_palette(labels, palette_len),
    ensures
        counts_total(labels, palette_len) == labels.len(),
    decreases labels.len(),
{
    if labels.len() > 0 {
        let rest = labels.drop_last();
        assert(labels_in_palette(rest, palette_len)) by {
            assert forall|i: int| 0 <= i < rest.len() implies (#[trigger] rest[i]) < palette_len by {
                assert(rest[i] == labels[i]);
            }
        }
        lemma_usage_counts_total(rest, palette_len);
        lemma_counts_total_last(labels, palette_len);
        assert(labels.last() == labels[labels.len() - 1]);
    } else {
        lemma_counts_total_empty(labels, palette_len);
    }
}

proof fn lemma_counts_total_empty(labels: Seq<u8>, m: int)
    requires
        labels.len() == 0,
    ensures
        counts_total(labels, m) == 0,
    decreases m,
{
    if m > 0 {
        lemma_counts_total_empty(labels, m - 1);
    }
}

/// Whether palette index `l` occurs in the label map.
pub open spec fn label_used(labels: Seq<u8>, l: int) -> bool {
    exists|i: int| 0 <= i < labels.len() && labels[i] == l
}

/// Number of used palette indices below `k`.
pub open spec fn used_below(labels: Seq<u8>, k: int) -> int
    decreases k,
{
    if k <= 0 {
        0
    } else {
        used_below(labels, k - 1) + (if label_used(labels, k - 1) {
            1int
        } else {
            0int
        })
    }
}

pub(crate) proof fn lemma_used_below_mono(labels: Seq<u8>, a: int, b: int)
    requires
        0 <= a <= b,
    ensures
        0 <= used_below(labels, a) <= used_below(labels, b) <= used_below(labels, a) + (b - a),
        label_used(labels, a) && a < b ==> used_below(labels, a) < used_below(labels, b),
    decreases b,
{
    lemma_used_below_nonneg(labels, a);
    if a < b {
        lemma_used_below_mono(labels, a, b - 1);
    }
}

proof fn lemma_used_below_nonneg(labels: Seq<u8>, k: int)
    ensures
        0 <= used_below(labels, k),
    decreases k,
{
    if k > 0 {
        lemma_used_below_nonneg(labels, k - 1);
    }
}

/// The palette entries below `k` that some label uses, in order.
pub open spec fn compact_colors(labels: Seq<u8>, palette: Seq<[u8; 3]>, k: int) -> Seq<[u8; 3]>
    decreases k,
{
    if k <= 0 {
        seq![]
    } else if label_used(labels, k - 1) {
        compact_colors(labels, palette, k - 1).push(palette[k - 1])
    } else {
        compact_colors(labels, palette, k - 1)
    }
}

/// Every label renumbered to the count of used palette indices below it.
pub open spec fn compacted_labels(labels: Seq<u8>) -> Seq<u8> {
    Seq::new(labels.len(), |i: int| used_below(labels, labels[i] as int) as u8)
}

/// Drop unused palette entries and renumber the labels accordingly: the kept
/// colors keep their order, and every label becomes the number of used palette
/// entries before it.
pub fn compact_palette(labels: &mut Vec<u8>, palette: &Vec<[u8; 3]>) -> (r: Vec<[u8; 3]>)
    requires
        labels_in_palette(old(labels)@, palette@.len() as int),
    ensures
        r@.len() == used_below(old(labels)@, palette@.len() as int),
        forall|k: int|
            0 <= k < palette@.len() && label_used(old(labels)@, k) ==> r@[#[trigger] used_below(old(labels)@, k)] == palette@[k],
        final(labels)@.len() == old(labels)@.len(),
        forall|i: int|
            0 <= i < final(labels)@.len() ==> #[trigger] final(labels)@[i] == used_below(old(labels)@, old(labels)@[i] as int),
        labels_in_palette(final(labels)@, r@.len() as int),
        forall|i: int| 0 <= i < final(labels)@.len() ==> r@[#[trigger] final(labels)@[i] as int] == palette@[old(labels)@[i] as int],
        forall|j: int| 0 <= j < r@.len() ==> #[trigger] label_used(final(labels)@, j),
        r@ == compact_colors(old(labels)@, palette@, palette@.len() as int),
        final(labels)@ == compacted_labels(old(labels)@),
{
    let ghost l0 = labels@;
    let n = palette.len();
    let mut used: Vec<bool> = Vec::new();
    let mut k: usize = 0;
    while k < n
        invariant
            k <= n,
            used@.len() == k,
            forall|j: int| 0 <= j < k ==> !used@[j],
        decreases n - k,
    {
        used.push(false);
        k += 1;
    }
    let mut i: usize = 0;
    while i < labels.len()
        invariant
            labels@ == l0,
            labels_in_palette(l0, n as int),
            n == palette@.len(),
            i <= l0.len(),
            used@.len() == n,
            forall|j: int| 0 <= j < n ==> #[trigger] used@[j] == exists|t: int| 0 <= t < i && l0[t] == j,
        decreases l0.len() - i,
    {
        let l = labels[i] as usize;
        used.set(l, true);
        proof {
            assert forall|j: int| 0 <= j < n implies #[trigger] used@[j] == exists|t: int| 0 <= t < i + 1 && l0[t] == j by {
                if j == l {
                    assert(l0[i as int] == j);
                }
            }
        }
        i += 1;
    }
    let mut remap: Vec<u8> = Vec::new();
    let mut compact: Vec<[u8; 3]> = Vec::new();
    let mut k: usize = 0;
    while k < n
        invariant
            labels@ == l0,
            labels_in_palette(l0, n as int),
            n == palette@.len(),
            used@.len() == n,
            forall|j: int| 0 <= j < n ==> #[trigger] used@[j] == label_used(l0, j),
            k <= n,
            remap@.len() == k,
            compact@.len() == used_below(l0, k as int),
            compact@ == compact_colors(l0, palette@, k as int),
            forall|j: int| 0 <= j < k && label_used(l0, j) ==> #[trigger] remap@[j] == used_below(l0, j),
            forall|j: int| 0 <= j < k && label_used(l0, j) ==> compact@[#[trigger] used_below(l0, j)] == palette@[j],
        decreases n - k,
    {
        proof {
            lemma_used_below_mono(l0, k as int, k + 1);
            lemma_used_below_mono(l0, 0, k as int);
            if used@[k as int] {
                assert(label_used(l0, k as int));
                let t = choose|t: int| 0 <= t < l0.len() && l0[t] == k;
                assert(l0[t] < 256);
                lemma_used_below_mono(l0, k as int, 256);
                lemma_used_below_mono(l0, 256, 256);
                lemma_used_below_256(l0);
            }
        }
        if used[k] {
            remap.push(compact.len() as u8);
            compact.push(palette[k]);
        } else {
            remap.push(u8::MAX);
        }
        proof {
            assert forall|j: int| 0 <= j < k + 1 && label_used(l0, j) implies compact@[#[trigger] used_below(l0, j)] == palette@[j] by {
                if j < k {
                    lemma_used_below_mono(l0, j, k as int);
                }
            }
        }
        k += 1;
    }
    let mut i: usize = 0;
    while i < labels.len()
        invariant
            labels@.len() == l0.len(),
            labels_in_palette(l0, n as int),
            n == palette@.len(),
            remap@.len() == n,
            forall|j: int| 0 <= j < n && label_used(l0, j) ==> #[trigger] remap@[j] == used_below(l0, j),
            i <= l0.len(),
            forall|t: int| 0 <= t < i ==> #[trigger] labels@[t] == used_below(l0, l0[t] as int),
            forall|t: int| i <= t < l0.len() ==> #[trigger] labels@[t] == l0[t],
        decreases l0.len() - i,
    {
        let l = labels[i] as usize;
        proof {
            assert(label_used(l0, l as int)) by {
                assert(l0[i as int] == l);
            }
        }
        labels.set(i, remap[l]);
        i += 1;
    }
    proof {
        lemma_compaction_is_faithful(l0, n as int);
        assert forall|j: int| 0 <= j < compact@.len() implies #[trigger] label_used(labels@, j) by {
            lemma_used_below_onto(l0, n as int, j);
            let k = choose|k: int| 0 <= k < n && label_used(l0, k) && used_below(l0, k) == j;
            let t = choose|t: int| 0 <= t < l0.len() && l0[t] == k;
            assert(labels@[t] == j);
        }
        assert forall|i: int| 0 <= i < labels@.len() implies compact@[#[trigger] labels@[i] as int] == palette@[l0[i] as int] by {
            assert(label_used(l0, l0[i] as int));
        }
        assert(labels@ =~= compacted_labels(l0));
    }
    compact
}

/// Compaction is faithful: the renumbered label of every pixel indexes the
/// compacted palette, and distinct used palette indices stay distinct.
pub proof fn lemma_compaction_is_faithful(labels: Seq<u8>, palette_len: int)
    requires
        labels_in_palette(labels, palette_len),
    ensures
        forall|i: int|
            0 <= i < labels.len() ==> 0 <= #[trigger] used_below(labels, labels[i] as int) < used_below(labels, palette_len),
        forall|a: int, b: int|
            0 <= a < b && label_used(labels, a) && label_used(labels, b) ==> #[trigger] used_below(labels, a)
                < #[trigger] used_below(labels, b),
{
    assert forall|i: int| 0 <= i < labels.len() implies 0 <= #[trigger] used_below(labels, labels[i] as int) < used_below(
        labels,
        palette_len,
    ) by {
        assert(label_used(labels, labels[i] as int));
        lemma_used_below_mono(labels, labels[i] as int, palette_len);
    }
    assert forall|a: int, b: int|
        0 <= a < b && label_used(labels, a) && label_used(labels, b) implies #[trigger] used_below(labels, a)
            < #[trigger] used_below(labels, b) by {
        lemma_used_below_mono(labels, a, b);
    }
}

/// Every compacted palette index `j` comes from a palette index below `n`
/// that some pixel uses.
pub proof fn lemma_used_below_onto(labels: Seq<u8>, n: int, j: int)
    requires
        0 <= j < used_below(labels, n),
    ensures
        exists|k: int| 0 <= k < n && label_used(labels, k) && #[trigger] used_below(labels, k) == j,
    decreases n,
{
    if n > 0 {
        if j < used_below(labels, n - 1) {
            lemma_used_below_onto(labels, n - 1, j);
        } else {
            assert(label_used(labels, n - 1));
            assert(used_below(labels, n - 1) == j);
        }
    }
}

proof fn lemma_used_below_256(labels: Seq<u8>)
    ensures
        forall|k: int| k >= 256 ==> #[trigger] used_below(labels, k) <= 256,
{
    assert forall|k: int| k >= 256 implies #[trigger] used_below(labels, k) <= 256 by {
        lemma_used_below_tail(labels, k);
        lemma_used_below_mono(labels, 0, 256);
    }
}

proof fn lemma_used_below_tail(labels: Seq<u8>, k: int)
    requires
        k >= 256,
    ensures
        used_below(labels, k) == used_below(labels, 256),
    decreases k,
{
    if k > 256 {
        lemma_used_below_tail(labels, k - 1);
        assert(!label_used(labels, k - 1));
    }
}

/// Keep the first occurrence of every color, in order.
pub open spec fn dedup_colors(s: Seq<[u8; 3]>) -> Seq<[u8; 3]>
    decreases s.len(),
{
    if s.len() == 0 {
        seq![]
    } else {
        let d = dedup_colors(s.drop_last());
        if d.contains(s.last()) {
            d
        } else {
            d.push(s.last())
        }
    }
}

fn colors_equal(a: [u8; 3], b: [u8; 3]) -> (r: bool)
    ensures
        r == (a == b),
{
    let r = a[0] == b[0] && a[1] == b[1] && a[2] == b[2];
    proof {
        if r {
            assert(a@ =~= b@);
            assert(a == b);
        }
    }
    r
}

/// Remove repeated palette colors, keeping the first occurrence of each.
pub fn deduplicate_palette(palette: Vec<[u8; 3]>) -> (r: Vec<[u8; 3]>)
    ensures
        r@ == dedup_colors(palette@),
        forall|a: int, b: int| 0 <= a < b < r@.len() ==> #[trigger] r@[a] != #[trigger] r@[b],
        forall|c: [u8; 3]| #[trigger] r@.contains(c) <==> palette@.contains(c),
{
    let mut unique: Vec<[u8; 3]> = Vec::new();
    let mut i: usize = 0;
    while i < palette.len()
        invariant
            i <= palette@.len(),
            unique@ == dedup_colors(palette@.subrange(0, i as int)),
        decreases palette@.len() - i,
    {
        let color = palette[i];
        let mut found = false;
        let mut j: usize = 0;
        while j < unique.len()
            invariant
                j <= unique@.len(),
                found == exists|t: int| 0 <= t < j && unique@[t] == color,
            decreases unique@.len() - j,
        {
            if colors_equal(unique[j], color) {
                found = true;
            }
            j += 1;
        }
        proof {
            assert(palette@.subrange(0, i + 1).drop_last() =~= palette@.subrange(0, i as int));
            assert(palette@.subrange(0, i + 1).last() == color);
        }
        if !found {
            unique.push(color);
        }
        i += 1;
    }
    proof {
        assert(palette@.subrange(0, palette@.len() as int) =~= palette@);
        lemma_dedup_colors_distinct_and_complete(palette@);
    }
    unique
}

/// Deduplication leaves every color at most once and keeps exactly the colors
/// that occur in the input.
pub proof fn lemma_dedup_colors_distinct_and_complete(s: Seq<[u8; 3]>)
    ensures
        forall|a: int, b: int|
            0 <= a < b < dedup_colors(s).len() ==> #[trigger] dedup_colors(s)[a] != #[trigger] dedup_colors(s)[b],
        forall|c: [u8; 3]| #[trigger] dedup_colors(s).contains(c) <==> s.contains(c),
    decreases s.len(),
{
    if s.len() > 0 {
        let t = s.drop_last();
        lemma_dedup_colors_distinct_and_complete(t);
        let d = dedup_colors(t);
        assert forall|c: [u8; 3]| #[trigger] dedup_colors(s).contains(c) <==> s.contains(c) by {
            if s.contains(c) {
                let k = choose|k: int| 0 <= k < s.len() && s[k] == c;
                if k < s.len() - 1 {
                    assert(t[k] == c);
                    assert(t.contains(c));
                }
            }
            if t.contains(c) {
                let k = choose|k: int| 0 <= k < t.len() && t[k] == c;
                assert(s[k] == c);
            }
            if !d.contains(s.last()) {
                assert(d.push(s.last())[d.len() as int] == s.last());
                if d.push(s.last()).contains(c) {
                    let k = choose|k: int| 0 <= k < d.len() + 1 && d.push(s.last())[k] == c;
                    if k < d.len() {
                        assert(d[k] == c);
                    }
                }
                if d.contains(c) {
                    let k = choose|k: int| 0 <= k < d.len() && d[k] == c;
                    assert(d.push(s.last())[k] == c);
                }
            }
            assert(s[s.len() - 1] == s.last());
        }
        if !d.contains(s.last()) {
            let e = d.push(s.last());
            assert forall|a: int, b: int| 0 <= a < b < e.len() implies #[trigger] e[a] != #[trigger] e[b] by {
                if b == d.len() {
                    assert(e[a] == d[a]);
                    if e[a] == e[b] {
                        assert(d.contains(s.last()));
                    }
                } else {
                    assert(e[a] == d[a] && e[b] == d[b]);
                }
            }
        }
    }
}

/// The sequence sorted with larger values first.
pub open spec fn sorted_desc(s: Seq<u32>) -> Seq<u32> {
    s.sort_by(|a: u32, b: u32| a >= b)
}

proof fn lemma_desc_total()
    ensures
        vstd::relations::total_ordering(|a: u32, b: u32| a >= b),
{
}

/// Sort counts, largest first.
pub fn sort_counts_desc(v: Vec<u32>) -> (r: Vec<u32>)
    ensures
        r@ == sorted_desc(v@),
        r@.len() == v@.len(),
{
    let ghost s = v@;
    let r = merge_sort(v);
    proof {
        let leq = |a: u32, b: u32| a >= b;
        lemma_desc_total();
        s.lemma_sort_by_ensures(leq);
        assert(vstd::relations::sorted_by(r@, leq)) by {
            assert forall|i: int, j: int| 0 <= i < j < r@.len() implies #[trigger] leq(r@[i], r@[j]) by {
                assert(r@[i].precedes(r@[j]));
            }
        }
        vstd::seq_lib::lemma_sorted_unique(r@, s.sort_by(leq), leq);
    }
    r
}

/// Sum of the first `n` entries (all of them when `n` exceeds the length).
pub open spec fn take_sum(s: Seq<u32>, n: int) -> int
    decreases n,
{
    if n <= 0 || s.len() == 0 {
        0
    } else if n > s.len() {
        take_sum(s, s.len() as int)
    } else {
        take_sum(s, n - 1) + s[n - 1]
    }
}

/// The entry at position `n`, or zero past the end.
pub open spec fn entry_or_zero(s: Seq<u32>, n: int) -> int {
    if 0 <= n < s.len() {
        s[n] as int
    } else {
        0
    }
}

/// Whether a descending count list is dominated by its `cap` largest entries:
/// the budget exceeds `cap`, those entries cover at least
/// `numerator / denominator` of `total`, and the next entry holds at most a
/// fiftieth of `total`.
pub open spec fn spec_qualifies(
    counts: Seq<u32>,
    requested: int,
    total: int,
    cap: int,
    numerator: int,
    denominator: int,
) -> bool {
    &&& requested > cap
    &&& counts.len() > 0
    &&& total != 0
    &&& take_sum(counts, cap) * denominator >= total * numerator
    &&& entry_or_zero(counts, cap) * 50 <= total
}

proof fn lemma_take_sum_step(s: Seq<u32>, n: int)
    requires
        0 <= n < s.len(),
    ensures
        take_sum(s, n + 1) == take_sum(s, n) + s[n],
        0 <= take_sum(s, n),
    decreases n,
{
    if n > 0 {
        lemma_take_sum_step(s, n - 1);
    }
}

/// Whether the `cap` largest counts dominate the total.
pub fn qualifies_for_flat_art_cap(
    counts: &Vec<u32>,
    requested_max_colors: usize,
    total: u32,
    cap: usize,
    coverage_numerator: u32,
    coverage_denominator: u32,
) -> (r: bool)
    requires
        cap <= u32::MAX,
    ensures
        r == spec_qualifies(
            counts@,
            requested_max_colors as int,
            total as int,
            cap as int,
            coverage_numerator as int,
            coverage_denominator as int,
        ),
{
    if requested_max_colors <= cap || counts.len() == 0 || total == 0 {
        return false;
    }
    let n = if cap < counts.len() { cap } else { counts.len() };
    let mut top: u128 = 0;
    let mut i: usize = 0;
    proof {
        assert(take_sum(counts@, cap as int) == take_sum(counts@, n as int));
    }
    while i < n
        invariant
            n <= counts@.len(),
            n <= u32::MAX,
            i <= n,
            top as int == take_sum(counts@, i as int),
            top as int <= i * 0xffff_ffff,
        decreases n - i,
    {
        proof {
            lemma_take_sum_step(counts@, i as int);
        }
        top = top + counts[i] as u128;
        i += 1;
    }
    let tail_peak: u128 = if cap < counts.len() { counts[cap] as u128 } else { 0 };
    proof {
        assert(top * coverage_denominator <= 0xffff_ffff * 0xffff_ffff * 0xffff_ffff) by (nonlinear_arith)
            requires
                top <= n * 0xffff_ffff,
                n <= 0xffff_ffff,
                coverage_denominator <= 0xffff_ffff,
        ;
        assert((total as u128) * (coverage_numerator as u128) <= 0xffff_ffff * 0xffff_ffff) by (nonlinear_arith)
            requires
                total <= 0xffff_ffff,
                coverage_numerator <= 0xffff_ffff,
        ;
    }
    top * (coverage_denominator as u128) >= (total as u128) * (coverage_numerator as u128) && tail_peak * 50
        <= total as u128
}

proof fn lemma_take_sum_mono(s: Seq<u32>, n: int)
    requires
        0 <= n <= s.len(),
    ensures
        forall|j: int| 0 <= j <= n ==> 0 <= #[trigger] take_sum(s, j) <= take_sum(s, n),
    decreases n,
{
    if n > 0 {
        lemma_take_sum_mono(s, n - 1);
        lemma_take_sum_step(s, n - 1);
    }
}

/// The first cap in `caps` whose coverage test passes.
pub open spec fn spec_select_cap(counts: Seq<u32>, requested: int, total: int, caps: Seq<(usize, u32, u32)>) -> Option<usize>
    decreases caps.len(),
{
    if caps.len() == 0 {
        None
    } else if spec_qualifies(counts, requested, total, caps[0].0 as int, caps[0].1 as int, caps[0].2 as int) {
        Some(caps[0].0)
    } else {
        spec_select_cap(counts, requested, total, caps.drop_first())
    }
}

/// Pick the first flat-art cap whose coverage test passes.
pub fn select_flat_art_color_cap(
    counts: &Vec<u32>,
    requested_max_colors: usize,
    total: u32,
    caps: &Vec<(usize, u32, u32)>,
) -> (r: Option<usize>)
    requires
        forall|i: int| 0 <= i < caps@.len() ==> (#[trigger] caps@[i]).0 <= u32::MAX,
    ensures
        r == spec_select_cap(counts@, requested_max_colors as int, total as int, caps@),
{
    let mut i: usize = 0;
    proof {
        assert(caps@.subrange(0, caps@.len() as int) =~= caps@);
    }
    while i < caps.len()
        invariant
            i <= caps@.len(),
            forall|i: int| 0 <= i < caps@.len() ==> (#[trigger] caps@[i]).0 <= u32::MAX,
            spec_select_cap(counts@, requested_max_colors as int, total as int, caps@) == spec_select_cap(
                counts@,
                requested_max_colors as int,
                total as int,
                caps@.subrange(i as int, caps@.len() as int),
            ),
        decreases caps@.len() - i,
    {
        let (cap, numerator, denominator) = caps[i];
        proof {
            assert(caps@.subrange(i as int, caps@.len() as int).drop_first() =~= caps@.subrange(i + 1, caps@.len() as int));
        }
        if qualifies_for_flat_art_cap(counts, requested_max_colors, total, cap, numerator, denominator) {
            return Some(cap);
        }
        i += 1;
    }
    None
}

/// The entries that are not zero, in order.
pub open spec fn nonzero_counts(s: Seq<u32>) -> Seq<u32>
    decreases s.len(),
{
    if s.len() == 0 {
        seq![]
    } else if s.last() > 0 {
        nonzero_counts(s.drop_last()).push(s.last())
    } else {
        nonzero_counts(s.drop_last())
    }
}

/// Usage count of every palette index.
pub open spec fn usage_counts(labels: Seq<u8>, palette_len: int) -> Seq<u32> {
    Seq::new(palette_len as nat, |l: int| count_of(labels, l) as u32)
}

/// Caps tried when re-running segmentation for flat art: twelve colors
/// covering 17/18 of the labels, then twenty-four covering 4/5.
pub open spec fn rerun_caps() -> Seq<(usize, u32, u32)> {
    seq![(12usize, 17u32, 18u32), (24usize, 4u32, 5u32)]
}

/// Caps tried for the color budget of flat art: twelve colors covering 17/18
/// of the pixels, then twenty-four covering 23/25.
pub open spec fn budget_caps() -> Seq<(usize, u32, u32)> {
    seq![(12usize, 17u32, 18u32), (24usize, 23u32, 25u32)]
}

/// The smaller palette to re-run segmentation with when a few palette entries
/// already cover almost all labels.
pub open spec fn spec_flat_art_rerun_cap(labels: Seq<u8>, palette_len: int) -> Option<usize> {
    if palette_len <= 12 || labels.len() == 0 {
        None
    } else {
        spec_select_cap(
            sorted_desc(nonzero_counts(usage_counts(labels, palette_len))),
            palette_len,
            labels.len() as int,
            rerun_caps(),
        )
    }
}

fn nonzero_entries(v: &Vec<u32>) -> (r: Vec<u32>)
    ensures
        r@ == nonzero_counts(v@),
{
    let mut r: Vec<u32> = Vec::new();
    let mut i: usize = 0;
    while i < v.len()
        invariant
            i <= v@.len(),
            r@ == nonzero_counts(v@.subrange(0, i as int)),
        decreases v@.len() - i,
    {
        proof {
            assert(v@.subrange(0, i + 1).drop_last() =~= v@.subrange(0, i as int));
        }
        if v[i] > 0 {
            r.push(v[i]);
        }
        i += 1;
    }
    proof {
        assert(v@.subrange(0, v@.len() as int) =~= v@);
    }
    r
}

/// Detect palettes where a few entries cover almost all labels and return the
/// smaller palette size to re-run segmentation with.
pub fn flat_art_rerun_cap(labels: &Vec<u8>, palette_len: usize) -> (r: Option<usize>)
    requires
        labels_in_palette(labels@, palette_len as int),
        labels@.len() <= u32::MAX,
    ensures
        r == spec_flat_art_rerun_cap(labels@, palette_len as int),
{
    if palette_len <= 12 || labels.len() == 0 {
        return None;
    }
    let usage = label_usage(labels, palette_len);
    proof {
        assert forall|l: int| 0 <= l < palette_len implies count_of(labels@, l) <= u32::MAX by {
            lemma_count_of_bound(labels@, l);
        }
        assert(usage@ =~= usage_counts(labels@, palette_len as int));
    }
    let counts = sort_counts_desc(nonzero_entries(&usage));
    let caps = vec![(12usize, 17u32, 18u32), (24usize, 4u32, 5u32)];
    proof {
        assert(caps@ =~= rerun_caps());
    }
    select_flat_art_color_cap(&counts, palette_len, labels.len() as u32, &caps)
}

/// The packed 24-bit code of a color.
pub open spec fn color_code(p: [u8; 3]) -> u32 {
    (p[0] * 65536 + p[1] * 256 + p[2]) as u32
}

/// Lengths of the runs of equal neighbors.
pub open spec fn run_lengths(s: Seq<u32>) -> Seq<u32>
    decreases s.len(),
{
    if s.len() == 0 {
        seq![]
    } else {
        let r = run_lengths(s.drop_last());
        if s.len() >= 2 && s[s.len() - 2] == s.last() {
            r.update(r.len() - 1, (r.last() + 1) as u32)
        } else {
            r.push(1u32)
        }
    }
}

/// Distinct colors have distinct codes.
pub proof fn lemma_color_code_injective(p: [u8; 3], q: [u8; 3])
    requires
        color_code(p) == color_code(q),
    ensures
        p == q,
{
    assert(p[0] * 65536 + p[1] * 256 + p[2] < 0x1_0000_0000);
    assert(q[0] * 65536 + q[1] * 256 + q[2] < 0x1_0000_0000);
    assert(p[0] == q[0] && p[1] == q[1] && p[2] == q[2]);
    assert(p =~= q);
}

proof fn lemma_run_lengths_count_values(s: Seq<u32>)
    requires
        forall|i: int, j: int| 0 <= i < j < s.len() ==> #[trigger] s[i] >= #[trigger] s[j],
    ensures
        run_lengths(s).len() == s.to_set().len(),
    decreases s.len(),
{
    broadcast use vstd::seq_lib::seq_to_set_is_finite;
    if s.len() == 0 {
        assert(s.to_set() =~= Set::<u32>::empty());
    } else {
        let t = s.drop_last();
        assert forall|i: int, j: int| 0 <= i < j < t.len() implies #[trigger] t[i] >= #[trigger] t[j] by {
            assert(s[i] >= s[j]);
        }
        lemma_run_lengths_count_values(t);
        assert forall|x: u32| s.to_set().contains(x) <==> t.to_set().insert(s.last()).contains(x) by {
            if s.contains(x) {
                let i = choose|i: int| 0 <= i < s.len() && s[i] == x;
                if i < s.len() - 1 {
                    assert(t[i] == x);
                }
            }
            if t.contains(x) {
                let i = choose|i: int| 0 <= i < t.len() && t[i] == x;
                assert(s[i] == x);
            }
            if x == s.last() {
                assert(s[s.len() - 1] == x);
            }
        }
        assert(s.to_set() =~= t.to_set().insert(s.last()));
        vstd::set::axiom_set_insert_len(t.to_set(), s.last());
        if s.len() >= 2 && s[s.len() - 2] == s.last() {
            assert(t.contains(s.last())) by {
                assert(t[t.len() - 1] == s.last());
            }
        } else {
            assert(!t.contains(s.last())) by {
                if t.contains(s.last()) {
                    let j = choose|j: int| 0 <= j < t.len() && t[j] == s.last();
                    assert(s[j] >= s[s.len() - 2]);
                    assert(s[s.len() - 2] >= s[s.len() - 1]);
                }
            }
        }
    }
}

proof fn lemma_take_sum_same_prefix(a: Seq<u32>, b: Seq<u32>, n: int)
    requires
        0 <= n <= a.len(),
        n <= b.len(),
        forall|i: int| 0 <= i < n ==> a[i] == b[i],
    ensures
        take_sum(a, n) == take_sum(b, n),
    decreases n,
{
    if n > 0 {
        lemma_take_sum_same_prefix(a, b, n - 1);
    }
}

proof fn lemma_run_lengths_sum(s: Seq<u32>)
    requires
        s.len() <= u32::MAX,
    ensures
        take_sum(run_lengths(s), run_lengths(s).len() as int) == s.len(),
    decreases s.len(),
{
    if s.len() > 0 {
        let r = run_lengths(s.drop_last());
        lemma_run_lengths_sum(s.drop_last());
        lemma_run_lengths_bound(s.drop_last());
        let r2 = run_lengths(s);
        let n = r.len() as int;
        if s.len() >= 2 && s[s.len() - 2] == s.last() {
            assert(r.last() <= s.len() - 1);
            assert(r2 == r.update(n - 1, (r.last() + 1) as u32));
            lemma_take_sum_same_prefix(r2, r, n - 1);
            lemma_take_sum_step(r2, n - 1);
            lemma_take_sum_step(r, n - 1);
        } else {
            assert(r2 == r.push(1u32));
            lemma_take_sum_same_prefix(r2, r, n);
            lemma_take_sum_step(r2, n);
        }
    }
}

/// The histogram counts add up to the number of pixels.
pub proof fn lemma_histogram_counts_cover_every_pixel(pixels: Seq<[u8; 3]>)
    requires
        pixels.len() <= u32::MAX,
    ensures
        take_sum(histogram_counts(pixels), histogram_counts(pixels).len() as int) == pixels.len(),
{
    broadcast use vstd::seq_lib::group_to_multiset_ensures;
    let codes = pixels.map_values(|p: [u8; 3]| color_code(p));
    let leq = |a: u32, b: u32| a >= b;
    lemma_desc_total();
    codes.lemma_sort_by_ensures(leq);
    assert(sorted_desc(codes).len() == sorted_desc(codes).to_multiset().len());
    assert(codes.len() == codes.to_multiset().len());
    lemma_run_lengths_sum(sorted_desc(codes));
}

/// The histogram has one count for every distinct color of the pixels:
/// pixels of different colors are counted apart.
pub proof fn lemma_histogram_counts_distinct_colors(pixels: Seq<[u8; 3]>)
    ensures
        histogram_counts(pixels).len() == pixels.to_set().len(),
{
    broadcast use vstd::seq_lib::seq_to_set_is_finite;
    broadcast use vstd::seq_lib::group_to_multiset_ensures;
    let codes = pixels.map_values(|p: [u8; 3]| color_code(p));
    let leq = |a: u32, b: u32| a >= b;
    lemma_desc_total();
    codes.lemma_sort_by_ensures(leq);
    let sorted = sorted_desc(codes);
    assert forall|i: int, j: int| 0 <= i < j < sorted.len() implies #[trigger] sorted[i] >= #[trigger] sorted[j] by {
        assert(leq(sorted[i], sorted[j]));
    }
    lemma_run_lengths_count_values(sorted);
    assert(sorted.to_set() =~= codes.to_set()) by {
        assert forall|x: u32| sorted.contains(x) <==> codes.contains(x) by {
            assert(sorted.contains(x) <==> sorted.to_multiset().count(x) > 0);
            assert(codes.contains(x) <==> codes.to_multiset().count(x) > 0);
        }
    }
    let f = |p: [u8; 3]| color_code(p);
    assert(pixels.to_set().map(f) =~= codes.to_set()) by {
        assert forall|x: u32| pixels.to_set().map(f).contains(x) <==> codes.contains(x) by {
            if codes.contains(x) {
                let i = choose|i: int| 0 <= i < codes.len() && codes[i] == x;
                assert(pixels.contains(pixels[i]));
                assert(pixels.to_set().contains(pixels[i]));
                assert(f(pixels[i]) == x);
            }
            if pixels.to_set().map(f).contains(x) {
                let p = choose|p: [u8; 3]| pixels.to_set().contains(p) && f(p) == x;
                let i = choose|i: int| 0 <= i < pixels.len() && pixels[i] == p;
                assert(codes[i] == x);
            }
        }
    }
    assert(vstd::relations::injective_on(f, pixels.to_set())) by {
        assert forall|p: [u8; 3], q: [u8; 3]|
            pixels.to_set().contains(p) && pixels.to_set().contains(q) && #[trigger] f(p) == #[trigger] f(q) implies p
                == q by {
            lemma_color_code_injective(p, q);
        }
    }
    vstd::set_lib::lemma_map_size(pixels.to_set(), codes.to_set(), f);
}

/// How many pixels carry each distinct color, listed by descending color code.
pub open spec fn histogram_counts(pixels: Seq<[u8; 3]>) -> Seq<u32> {
    run_lengths(sorted_desc(pixels.map_values(|p: [u8; 3]| color_code(p))))
}

/// The palette budget for `pixels`: a smaller cap when a few colors already
/// cover almost every pixel, the requested budget otherwise.
pub open spec fn spec_adaptive_color_budget(pixels: Seq<[u8; 3]>, requested: int) -> int {
    if requested <= 12 || pixels.len() == 0 {
        requested
    } else {
        match spec_select_cap(sorted_desc(histogram_counts(pixels)), requested, pixels.len() as int, budget_caps()) {
            Some(cap) => cap as int,
            None => requested,
        }
    }
}

proof fn lemma_select_cap_is_listed_and_smaller(counts: Seq<u32>, requested: int, total: int, caps: Seq<(usize, u32, u32)>)
    ensures
        spec_select_cap(counts, requested, total, caps) matches Some(cap) ==> cap < requested && exists|i: int|
            0 <= i < caps.len() && #[trigger] caps[i].0 == cap,
    decreases caps.len(),
{
    if caps.len() > 0 {
        lemma_select_cap_is_listed_and_smaller(counts, requested, total, caps.drop_first());
        if let Some(cap) = spec_select_cap(counts, requested, total, caps) {
            if spec_select_cap(counts, requested, total, caps.drop_first()) == Some(cap) && !spec_qualifies(
                counts,
                requested,
                total,
                caps[0].0 as int,
                caps[0].1 as int,
                caps[0].2 as int,
            ) {
                let i = choose|i: int| 0 <= i < caps.drop_first().len() && #[trigger] caps.drop_first()[i].0 == cap;
                assert(caps[i + 1].0 == cap);
            } else {
                assert(caps[0].0 == cap);
            }
        }
    }
}

/// The adaptive budget keeps the requested one or lowers it to a flat-art cap
/// of 12 or 24 colors; it never exceeds the request.
pub proof fn lemma_adaptive_budget_at_most_requested(pixels: Seq<[u8; 3]>, requested: int)
    ensures
        spec_adaptive_color_budget(pixels, requested) <= requested,
        spec_adaptive_color_budget(pixels, requested) == requested || spec_adaptive_color_budget(pixels, requested)
            == 12 || spec_adaptive_color_budget(pixels, requested) == 24,
{
    lemma_select_cap_is_listed_and_smaller(
        sorted_desc(histogram_counts(pixels)),
        requested,
        pixels.len() as int,
        budget_caps(),
    );
}

proof fn lemma_run_lengths_bound(s: Seq<u32>)
    ensures
        s.len() > 0 ==> run_lengths(s).len() > 0 && run_lengths(s).last() <= s.len(),
        s.len() == 0 ==> run_lengths(s).len() == 0,
    decreases s.len(),
{
    if s.len() > 0 {
        lemma_run_lengths_bound(s.drop_last());
    }
}

fn run_lengths_of(s: &Vec<u32>) -> (r: Vec<u32>)
    requires
        s@.len() <= u32::MAX,
    ensures
        r@ == run_lengths(s@),
{
    let mut r: Vec<u32> = Vec::new();
    let mut i: usize = 0;
    while i < s.len()
        invariant
            i <= s@.len() <= u32::MAX,
            r@ == run_lengths(s@.subrange(0, i as int)),
        decreases s@.len() - i,
    {
        let ghost prefix = s@.subrange(0, i + 1);
        proof {
            assert(prefix.drop_last() =~= s@.subrange(0, i as int));
            lemma_run_lengths_bound(s@.subrange(0, i as int));
        }
        if i >= 1 && s[i - 1] == s[i] {
            let last = r.len() - 1;
            let v = r[last] + 1;
            r.set(last, v);
        } else {
            r.push(1);
        }
        i += 1;
    }
    proof {
        assert(s@.subrange(0, s@.len() as int) =~= s@);
    }
    r
}

/// Pick the palette budget: cap it for flat art whose few dominant colors
/// already cover almost every pixel, keep the requested budget otherwise.
pub fn adaptive_color_budget(pixels: &Vec<[u8; 3]>, requested_max_colors: usize) -> (r: usize)
    requires
        pixels@.len() <= u32::MAX,
    ensures
        r as int == spec_adaptive_color_budget(pixels@, requested_max_colors as int),
{
    if requested_max_colors <= 12 || pixels.len() == 0 {
        return requested_max_colors;
    }
    let mut codes: Vec<u32> = Vec::new();
    let mut i: usize = 0;
    while i < pixels.len()
        invariant
            i <= pixels@.len(),
            codes@ == pixels@.subrange(0, i as int).map_values(|p: [u8; 3]| color_code(p)),
        decreases pixels@.len() - i,
    {
        let p = pixels[i];
        let code = (p[0] as u32) * 65536 + (p[1] as u32) * 256 + (p[2] as u32);
        codes.push(code);
        proof {
            assert(pixels@.subrange(0, i + 1).map_values(|p: [u8; 3]| color_code(p)) =~= pixels@.subrange(
                0,
                i as int,
            ).map_values(|p: [u8; 3]| color_code(p)).push(color_code(p)));
        }
        i += 1;
    }
    proof {
        assert(pixels@.subrange(0, pixels@.len() as int) =~= pixels@);
    }
    let sorted = sort_counts_desc(codes);
    proof {
        let leq = |a: u32, b: u32| a >= b;
        lemma_desc_total();
        pixels@.map_values(|p: [u8; 3]| color_code(p)).lemma_sort_by_ensures(leq);
    }
    let counts = sort_counts_desc(run_lengths_of(&sorted));
    let caps = vec![(12usize, 17u32, 18u32), (24usize, 23u32, 25u32)];
    proof {
        assert(caps@ =~= budget_caps());
    }
    match select_flat_art_color_cap(&counts, requested_max_colors, pixels.len() as u32, &caps) {
        Some(cap) => cap,
        None => requested_max_colors,
    }
}


/// The palette index the comparison `f` puts nearest to `pixel` among the
/// first `k` entries: a later entry replaces the current choice only when it
/// is strictly nearer, so ties go to the earliest index. Index zero when
/// there is at most one entry.
pub open spec fn nearest_index<F: Fn([u8; 3], [u8; 3], [u8; 3]) -> bool>(
    f: F,
    pixel: [u8; 3],
    palette: Seq<[u8; 3]>,
    k: int,
) -> int
    decreases k,
{
    if k <= 1 {
        0
    } else {
        let b = nearest_index(f, pixel, palette, k - 1);
        if !no_farther(f, pixel, palette[b], palette[k - 1]) {
            k - 1
        } else {
            b
        }
    }
}

proof fn lemma_nearest_index_range<F: Fn([u8; 3], [u8; 3], [u8; 3]) -> bool>(
    f: F,
    pixel: [u8; 3],
    palette: Seq<[u8; 3]>,
    k: int,
)
    ensures
        0 <= nearest_index(f, pixel, palette, k),
        k >= 1 ==> nearest_index(f, pixel, palette, k) < k,
    decreases k,
{
    if k > 1 {
        lemma_nearest_index_range(f, pixel, palette, k - 1);
    }
}

/// The index of the palette color nearest to `pixel`, the earliest one among
/// equally near colors; zero for an empty palette.
pub fn nearest_palette_index<F: Fn([u8; 3], [u8; 3], [u8; 3]) -> bool>(
    pixel: [u8; 3],
    palette: &Vec<[u8; 3]>,
    no_farther_fn: &F,
) -> (r: usize)
    requires
        is_color_order(*no_farther_fn),
    ensures
        r == nearest_index(*no_farther_fn, pixel, palette@, palette@.len() as int),
        palette@.len() > 0 ==> r < palette@.len(),
{
    let n = palette.len();
    if n <= 1 {
        return 0;
    }
    let mut best: usize = 0;
    let mut k: usize = 1;
    while k < n
        invariant
            n == palette@.len(),
            is_color_order(*no_farther_fn),
            1 <= k <= n,
            best == nearest_index(*no_farther_fn, pixel, palette@, k as int),
            best < k,
        decreases n - k,
    {
        if !ask_no_farther(no_farther_fn, pixel, palette[best], palette[k]) {
            best = k;
        }
        k += 1;
    }
    best
}

/// Label every pixel with the index of its nearest palette color.
pub fn assign_palette_labels<F: Fn([u8; 3], [u8; 3], [u8; 3]) -> bool>(
    pixels: &Vec<[u8; 3]>,
    palette: &Vec<[u8; 3]>,
    no_farther_fn: &F,
) -> (r: Vec<u8>)
    requires
        is_color_order(*no_farther_fn),
    ensures
        r@.len() == pixels@.len(),
        forall|i: int|
            0 <= i < pixels@.len() ==> #[trigger] r@[i] == nearest_index(
                *no_farther_fn,
                pixels@[i],
                palette@,
                palette@.len() as int,
            ) as u8,
{
    let mut labels: Vec<u8> = Vec::new();
    let mut i: usize = 0;
    while i < pixels.len()
        invariant
            is_color_order(*no_farther_fn),
            i <= pixels@.len(),
            labels@.len() == i,
            forall|t: int|
                0 <= t < i ==> #[trigger] labels@[t] == nearest_index(
                    *no_farther_fn,
                    pixels@[t],
                    palette@,
                    palette@.len() as int,
                ) as u8,
        decreases pixels@.len() - i,
    {
        let index = nearest_palette_index(pixels[i], palette, no_farther_fn);
        labels.push(index as u8);
        i += 1;
    }
    labels
}


/// Every pixel labeled with the index of its nearest palette color.
pub open spec fn nearest_labels<F: Fn([u8; 3], [u8; 3], [u8; 3]) -> bool>(
    f: F,
    pixels: Seq<[u8; 3]>,
    palette: Seq<[u8; 3]>,
) -> Seq<u8> {
    Seq::new(pixels.len(), |i: int| nearest_index(f, pixels[i], palette, palette.len() as int) as u8)
}

/// The labels after assignment and the three cleanups: anti-aliasing fringes,
/// bridge palette labels, then tiny components.
pub open spec fn cleaned_labels<F: Fn([u8; 3], [u8; 3], [u8; 3]) -> bool>(
    f: F,
    pixels: Seq<[u8; 3]>,
    palette: Seq<[u8; 3]>,
    w: int,
    h: int,
    tiny_area: int,
) -> Seq<u8> {
    let assigned = nearest_labels(f, pixels, palette);
    let fringes = spec_cleanup_antialias(f, pixels, assigned, palette, w, h);
    let bridges = spec_collapse_bridge_labels(f, pixels, fringes, palette, w, h);
    spec_cleanup_tiny_components(f, pixels, bridges, palette, w, h, tiny_area)
}

/// Segmentation labels every pixel with its nearest palette color and then
/// runs the three cleanups in order, each as its own operation specifies it:
/// the anti-aliasing cleanup (`cleanup_antialias_fringes`), the bridge-label
/// collapse (`collapse_bridge_palette_labels`) and the tiny-island cleanup
/// (`cleanup_tiny_label_components`); the segmentation's labels are the
/// compacted result.
pub proof fn lemma_segmentation_runs_every_cleanup<F: Fn([u8; 3], [u8; 3], [u8; 3]) -> bool>(
    f: F,
    pixels: Seq<[u8; 3]>,
    palette: Seq<[u8; 3]>,
    w: int,
    h: int,
    tiny_area: int,
)
    ensures
        cleaned_labels(f, pixels, palette, w, h, tiny_area) == spec_cleanup_tiny_components(
            f,
            pixels,
            spec_collapse_bridge_labels(
                f,
                pixels,
                spec_cleanup_antialias(f, pixels, nearest_labels(f, pixels, palette), palette, w, h),
                palette,
                w,
                h,
            ),
            palette,
            w,
            h,
            tiny_area,
        ),
        segmented_labels(f, pixels, palette, w, h, tiny_area) == compacted_labels(
            cleaned_labels(f, pixels, palette, w, h, tiny_area),
        ),
{
}

/// The palette entry as a palette color.
pub open spec fn to_palette_color(c: [u8; 3]) -> PaletteColor {
    PaletteColor { r: c[0], g: c[1], b: c[2] }
}

/// The label map of a segmentation: the cleaned labels, renumbered after
/// compaction.
pub open spec fn segmented_labels<F: Fn([u8; 3], [u8; 3], [u8; 3]) -> bool>(
    f: F,
    pixels: Seq<[u8; 3]>,
    palette: Seq<[u8; 3]>,
    w: int,
    h: int,
    tiny_area: int,
) -> Seq<u8> {
    compacted_labels(cleaned_labels(f, pixels, palette, w, h, tiny_area))
}

/// The palette of a segmentation: the palette entries the cleaned labels use,
/// in order.
pub open spec fn segmented_palette<F: Fn([u8; 3], [u8; 3], [u8; 3]) -> bool>(
    f: F,
    pixels: Seq<[u8; 3]>,
    palette: Seq<[u8; 3]>,
    w: int,
    h: int,
    tiny_area: int,
) -> Seq<PaletteColor> {
    compact_colors(cleaned_labels(f, pixels, palette, w, h, tiny_area), palette, palette.len() as int).map_values(
        |c: [u8; 3]| to_palette_color(c),
    )
}

/// Segment a `width` by `height` image (pixels row by row) with a fitted
/// palette: label each pixel with its nearest palette color, clean up
/// anti-aliasing fringes, bridge palette labels and label islands of at most
/// `tiny_area` pixels, then drop the palette entries no pixel uses.
pub fn segment_with_palette<F: Fn([u8; 3], [u8; 3], [u8; 3]) -> bool>(
    pixels: &Vec<[u8; 3]>,
    width: u32,
    height: u32,
    palette: &Vec<[u8; 3]>,
    tiny_area: usize,
    no_farther_fn: &F,
) -> (r: SegmentationResult)
    requires
        is_color_order(*no_farther_fn),
        pixels@.len() == width * height,
        pixels@.len() <= u32::MAX,
        palette@.len() >= 1,
        palette@.len() * palette@.len() <= usize::MAX,
    ensures
        r.width == width,
        r.height == height,
        r.labels@ == segmented_labels(*no_farther_fn, pixels@, palette@, width as int, height as int, tiny_area as int),
        r.palette@ == segmented_palette(*no_farther_fn, pixels@, palette@, width as int, height as int, tiny_area as int),
        ({
            let l = cleaned_labels(*no_farther_fn, pixels@, palette@, width as int, height as int, tiny_area as int);
            &&& r.labels@.len() == l.len()
            &&& forall|i: int| 0 <= i < l.len() ==> #[trigger] r.labels@[i] == used_below(l, l[i] as int)
            &&& r.palette@.len() == used_below(l, palette@.len() as int)
            &&& forall|k: int|
                0 <= k < palette@.len() && label_used(l, k) ==> r.palette@[#[trigger] used_below(l, k)]
                    == to_palette_color(palette@[k])
            &&& forall|i: int|
                0 <= i < l.len() ==> r.palette@[#[trigger] r.labels@[i] as int] == to_palette_color(palette@[l[i] as int])
        }),
        labels_in_palette(r.labels@, r.palette@.len() as int),
        forall|j: int| 0 <= j < r.palette@.len() ==> #[trigger] label_used(r.labels@, j),
        r.labels@.len() == pixels@.len(),
{
    let labels = assign_palette_labels(pixels, palette, no_farther_fn);
    proof {
        assert(labels@ =~= nearest_labels(*no_farther_fn, pixels@, palette@));
    }
    segment_assigned_labels(pixels, labels, width, height, palette, tiny_area, no_farther_fn)
}

/// Finish a segmentation whose labels were assigned to the nearest palette
/// colors: clean up anti-aliasing fringes, bridge palette labels and label
/// islands of at most `tiny_area` pixels, then drop the palette entries no
/// pixel uses.
pub fn segment_assigned_labels<F: Fn([u8; 3], [u8; 3], [u8; 3]) -> bool>(
    pixels: &Vec<[u8; 3]>,
    labels: Vec<u8>,
    width: u32,
    height: u32,
    palette: &Vec<[u8; 3]>,
    tiny_area: usize,
    no_farther_fn: &F,
) -> (r: SegmentationResult)
    requires
        is_color_order(*no_farther_fn),
        labels@ == nearest_labels(*no_farther_fn, pixels@, palette@),
        pixels@.len() == width * height,
        pixels@.len() <= u32::MAX,
        palette@.len() >= 1,
        palette@.len() * palette@.len() <= usize::MAX,
    ensures
        r.width == width,
        r.height == height,
        r.labels@ == segmented_labels(*no_farther_fn, pixels@, palette@, width as int, height as int, tiny_area as int),
        r.palette@ == segmented_palette(*no_farther_fn, pixels@, palette@, width as int, height as int, tiny_area as int),
        ({
            let l = cleaned_labels(*no_farther_fn, pixels@, palette@, width as int, height as int, tiny_area as int);
            &&& r.labels@.len() == l.len()
            &&& forall|i: int| 0 <= i < l.len() ==> #[trigger] r.labels@[i] == used_below(l, l[i] as int)
            &&& r.palette@.len() == used_below(l, palette@.len() as int)
            &&& forall|k: int|
                0 <= k < palette@.len() && label_used(l, k) ==> r.palette@[#[trigger] used_below(l, k)]
                    == to_palette_color(palette@[k])
            &&& forall|i: int|
                0 <= i < l.len() ==> r.palette@[#[trigger] r.labels@[i] as int] == to_palette_color(palette@[l[i] as int])
        }),
        labels_in_palette(r.labels@, r.palette@.len() as int),
        forall|j: int| 0 <= j < r.palette@.len() ==> #[trigger] label_used(r.labels@, j),
        r.labels@.len() == pixels@.len(),
{
    let mut labels = labels;
    let palette_len = palette.len();
    proof {
        assert forall|i: int| 0 <= i < labels@.len() implies (#[trigger] labels@[i]) < palette@.len() by {
            lemma_nearest_index_range(*no_farther_fn, pixels@[i], palette@, palette@.len() as int);
            let idx = nearest_index(*no_farther_fn, pixels@[i], palette@, palette@.len() as int);
            let u = idx as usize;
            assert(u == idx);
            assert((u as u8) <= u) by (bit_vector);
            assert((idx as u8) == (u as u8));
        }
    }
    cleanup_antialias_fringes(pixels, &mut labels, palette, width, height, no_farther_fn);
    collapse_bridge_palette_labels(pixels, &mut labels, palette, width, height, no_farther_fn);
    cleanup_tiny_label_components(pixels, &mut labels, palette, width, height, tiny_area, no_farther_fn);
    let ghost cleaned = labels@;
    let compact = compact_palette(&mut labels, palette);
    let mut colors: Vec<PaletteColor> = Vec::new();
    let mut k: usize = 0;
    while k < compact.len()
        invariant
            k <= compact@.len(),
            colors@.len() == k,
            forall|t: int| 0 <= t < k ==> #[trigger] colors@[t] == to_palette_color(compact@[t]),
        decreases compact@.len() - k,
    {
        let c = compact[k];
        colors.push(PaletteColor { r: c[0], g: c[1], b: c[2] });
        k += 1;
    }
    proof {
        assert forall|k: int|
            0 <= k < palette@.len() && label_used(cleaned, k) implies colors@[#[trigger] used_below(cleaned, k)]
            == to_palette_color(palette@[k]) by {
            lemma_used_below_mono(cleaned, k, palette@.len() as int);
        }
        assert forall|i: int| 0 <= i < labels@.len() implies colors@[#[trigger] labels@[i] as int]
            == to_palette_color(palette@[cleaned[i] as int]) by {
            assert(compact@[labels@[i] as int] == palette@[cleaned[i] as int]);
        }
    }
    proof {
        assert(colors@ =~= compact@.map_values(|c: [u8; 3]| to_palette_color(c)));
    }
    SegmentationResult { palette: colors, labels, width, height }
}

} // verus!
