//! Quality presets and the integer parts of the tracing configuration.

use vstd::prelude::*;
use vstd::string::*;

verus! {

/// Quality preset for controlling the speed/quality tradeoff.
#[derive(Debug, Clone, Copy, PartialEq, Eq, Structural)]
pub enum QualityPreset {
    /// Fast mode: lower quality, faster processing.
    Fast,
    /// Balanced mode: good quality with reasonable speed. (default)
    Balanced,
    /// High mode: best quality, slower processing.
    High,
}

/// ASCII letters in lower case; every other character unchanged.
pub open spec fn ascii_lower(c: char) -> char {
    if 'A' <= c <= 'Z' {
        ((c as u32) + 32) as char
    } else {
        c
    }
}

/// The text with its ASCII letters in lower case. For the preset names this
/// is the same as full lower-casing: no other character lower-cases to one
/// of their letters alone.
pub open spec fn ascii_lowered(s: Seq<char>) -> Seq<char> {
    s.map_values(|c: char| ascii_lower(c))
}

/// The name of a preset.
pub open spec fn preset_name(p: QualityPreset) -> Seq<char> {
    match p {
        QualityPreset::Fast => "fast"@,
        QualityPreset::Balanced => "balanced"@,
        QualityPreset::High => "high"@,
    }
}

/// The preset named by `s`, ignoring case.
pub open spec fn spec_parse_preset(s: Seq<char>) -> Option<QualityPreset> {
    if ascii_lowered(s) == "fast"@ {
        Some(QualityPreset::Fast)
    } else if ascii_lowered(s) == "balanced"@ {
        Some(QualityPreset::Balanced)
    } else if ascii_lowered(s) == "high"@ {
        Some(QualityPreset::High)
    } else {
        None
    }
}

/// Whether `s` spells the lower-case ASCII `word`, ignoring ASCII case.
pub(crate) fn equals_ignoring_case(s: &str, word: &str) -> (r: bool)
    requires
        forall|i: int| 0 <= i < word@.len() ==> 'a' <= #[trigger] word@[i] <= 'z',
    ensures
        r == (ascii_lowered(s@) == word@),
{
    let n = s.unicode_len();
    let m = word.unicode_len();
    if n != m {
        proof {
            assert(ascii_lowered(s@).len() != word@.len());
        }
        return false;
    }
    let mut i: usize = 0;
    while i < n
        invariant
            n == s@.len(),
            n == word@.len(),
            forall|k: int| 0 <= k < word@.len() ==> 'a' <= #[trigger] word@[k] <= 'z',
            i <= n,
            forall|k: int| 0 <= k < i ==> ascii_lower(#[trigger] s@[k]) == word@[k],
        decreases n - i,
    {
        let c = s.get_char(i);
        let w = word.get_char(i);
        let cu = c as u32;
        let wu = w as u32;
        let same = cu == wu || (65 <= cu && cu <= 90 && cu + 32 == wu);
        proof {
            assert(same == (ascii_lower(c) == w)) by {
                vstd::utf8::char_u32_cast(c, cu);
                vstd::utf8::char_u32_cast(w, wu);
                if 65 <= cu <= 90 {
                    assert('A' <= c <= 'Z');
                    vstd::utf8::char_is_scalar(w);
                }
            }
        }
        if !same {
            proof {
                assert(ascii_lowered(s@)[i as int] != word@[i as int]);
            }
            return false;
        }
        i += 1;
    }
    proof {
        assert(ascii_lowered(s@) =~= word@);
    }
    true
}

impl QualityPreset {
    /// Parse a quality preset from a string, ignoring case.
    pub fn parse(s: &str) -> (r: Option<Self>)
        ensures
            r == spec_parse_preset(s@),
    {
        proof {
            reveal_strlit("fast");
            reveal_strlit("balanced");
            reveal_strlit("high");
        }
        if equals_ignoring_case(s, "fast") {
            Some(QualityPreset::Fast)
        } else if equals_ignoring_case(s, "balanced") {
            Some(QualityPreset::Balanced)
        } else if equals_ignoring_case(s, "high") {
            Some(QualityPreset::High)
        } else {
            None
        }
    }

    /// The preset's name, as it is displayed.
    pub fn to_string(&self) -> (r: String)
        ensures
            r@ == preset_name(*self),
    {
        match self {
            QualityPreset::Fast => String::from_str("fast"),
            QualityPreset::Balanced => String::from_str("balanced"),
            QualityPreset::High => String::from_str("high"),
        }
    }

    /// Whether this is the high preset.
    pub fn is_high(&self) -> (r: bool)
        ensures
            r == (*self == QualityPreset::High),
    {
        match self {
            QualityPreset::High => true,
            _ => false,
        }
    }
}

/// A preset's displayed name parses back to the same preset.
pub proof fn lemma_preset_name_parses_back(p: QualityPreset)
    ensures
        spec_parse_preset(preset_name(p)) == Some(p),
{
    reveal_strlit("fast");
    reveal_strlit("balanced");
    reveal_strlit("high");
    assert(ascii_lowered("fast"@) =~= "fast"@);
    assert(ascii_lowered("balanced"@) =~= "balanced"@);
    assert(ascii_lowered("high"@) =~= "high"@);
    assert("fast"@ != "balanced"@ && "fast"@ != "high"@ && "balanced"@ != "high"@) by {
        assert("fast"@.len() != "balanced"@.len());
        assert("high"@.len() != "balanced"@.len());
        assert("fast"@[0] != "high"@[0]);
    }
}

/// Parsing ignores case: lower-casing the text first changes nothing.
pub proof fn lemma_preset_parse_ignores_case(s: Seq<char>)
    ensures
        spec_parse_preset(ascii_lowered(s)) == spec_parse_preset(s),
{
    assert forall|i: int| 0 <= i < s.len() implies ascii_lower(ascii_lower(#[trigger] s[i])) == ascii_lower(s[i]) by {
        let c = s[i];
        if 'A' <= c <= 'Z' {
            assert((((c as u32) + 32) as char) as u32 == (c as u32) + 32);
        }
    }
    assert(ascii_lowered(ascii_lowered(s)) =~= ascii_lowered(s));
}

/// White space as Rust's `char::is_whitespace` has it: the Unicode
/// White_Space characters.
pub open spec fn is_white_space(c: char) -> bool {
    let u = c as u32;
    (9 <= u <= 13) || u == 32 || u == 0x85 || u == 0xA0 || u == 0x1680 || (0x2000 <= u <= 0x200A) || u == 0x2028
        || u == 0x2029 || u == 0x202F || u == 0x205F || u == 0x3000
}

/// The text without its leading white space.
pub open spec fn trim_start(s: Seq<char>) -> Seq<char>
    decreases s.len(),
{
    if s.len() > 0 && is_white_space(s[0]) {
        trim_start(s.drop_first())
    } else {
        s
    }
}

/// The text without its trailing white space.
pub open spec fn trim_end(s: Seq<char>) -> Seq<char>
    decreases s.len(),
{
    if s.len() > 0 && is_white_space(s.last()) {
        trim_end(s.drop_last())
    } else {
        s
    }
}

/// The text without leading and trailing white space.
pub open spec fn trimmed(s: Seq<char>) -> Seq<char> {
    trim_end(trim_start(s))
}

/// The digits of a color: the text after one leading `#`, if there is one.
pub open spec fn hex_digits(v: Seq<char>) -> Seq<char> {
    if v.len() > 0 && v[0] == '#' {
        v.drop_first()
    } else {
        v
    }
}

/// The value of a hexadecimal digit, in either case.
pub open spec fn hex_value(c: char) -> Option<int> {
    if '0' <= c <= '9' {
        Some(c as int - '0' as int)
    } else if 'a' <= c <= 'f' {
        Some(c as int - 'a' as int + 10)
    } else if 'A' <= c <= 'F' {
        Some(c as int - 'A' as int + 10)
    } else {
        None
    }
}

/// The byte that two hexadecimal digits spell, high digit first.
pub open spec fn pair_value(c1: char, c2: char) -> Option<u8> {
    match (hex_value(c1), hex_value(c2)) {
        (Some(a), Some(b)) => Some((a * 16 + b) as u8),
        _ => None,
    }
}

/// The number of bytes of the UTF-8 encoding of a character.
pub open spec fn utf8_width(c: char) -> int {
    let u = c as u32;
    if u < 0x80 {
        1
    } else if u < 0x800 {
        2
    } else if u < 0x10000 {
        3
    } else {
        4
    }
}

/// The number of bytes of the UTF-8 encoding of a text.
pub open spec fn utf8_len(s: Seq<char>) -> int
    decreases s.len(),
{
    if s.len() == 0 {
        0
    } else {
        utf8_len(s.drop_last()) + utf8_width(s.last())
    }
}

/// Byte offset `b` of the UTF-8 encoding of `s` falls between two characters.
pub open spec fn cuts_at(s: Seq<char>, b: int) -> bool {
    exists|k: int| 0 <= k <= s.len() && #[trigger] utf8_len(s.take(k)) == b
}

/// The message for a color whose digits are not six bytes long.
pub open spec fn hex_length_message(v: Seq<char>) -> Seq<char> {
    "Invalid hex color '"@ + v + "': expected 6 hex digits (e.g. \"#ff0000\")"@
}

/// The message for a color with a character that is no digit.
pub open spec fn hex_invalid_message(v: Seq<char>) -> Seq<char> {
    "Invalid hex color '"@ + v + "'"@
}

/// The color a `#rrggbb` or `rrggbb` text (surrounding white space ignored)
/// stands for, or the message that rejects it.
pub open spec fn spec_parse_hex_color(s: Seq<char>) -> Result<(u8, u8, u8), Seq<char>> {
    let v = trimmed(s);
    let hex = hex_digits(v);
    if utf8_len(hex) != 6 {
        Err(hex_length_message(v))
    } else if hex.len() == 6 && pair_value(hex[0], hex[1]) is Some && pair_value(hex[2], hex[3]) is Some
        && pair_value(hex[4], hex[5]) is Some {
        Ok((pair_value(hex[0], hex[1])->0, pair_value(hex[2], hex[3])->0, pair_value(hex[4], hex[5])->0))
    } else {
        Err(hex_invalid_message(v))
    }
}

/// The digits of `s` cut into byte pairs fall on character boundaries, so
/// that taking the pairs apart does not fail.
pub open spec fn hex_pairs_cut_cleanly(s: Seq<char>) -> bool {
    let hex = hex_digits(trimmed(s));
    utf8_len(hex) == 6 ==> cuts_at(hex, 2) && cuts_at(hex, 4)
}

fn white_space(c: char) -> (r: bool)
    ensures
        r == is_white_space(c),
{
    let u = c as u32;
    proof {
        vstd::utf8::char_u32_cast(c, u);
    }
    (9 <= u && u <= 13) || u == 32 || u == 0x85 || u == 0xA0 || u == 0x1680 || (0x2000 <= u && u <= 0x200A)
        || u == 0x2028 || u == 0x2029 || u == 0x202F || u == 0x205F || u == 0x3000
}

/// Whether the UTF-8 encoding of `s` is six bytes long.
fn has_six_bytes(s: &str) -> (r: bool)
    ensures
        r == (utf8_len(s@) == 6),
{
    let n = s.unicode_len();
    let mut bytes: usize = 0;
    let mut i: usize = 0;
    while i < n
        invariant
            n == s@.len(),
            i <= n,
            bytes == utf8_len(s@.take(i as int)),
            bytes <= 6,
        decreases n - i,
    {
        let u = s.get_char(i) as u32;
        proof {
            vstd::utf8::char_u32_cast(s@[i as int], u);
            assert(s@.take(i + 1).drop_last() =~= s@.take(i as int));
        }
        let width: usize = if u < 0x80 {
            1
        } else if u < 0x800 {
            2
        } else if u < 0x10000 {
            3
        } else {
            4
        };
        if bytes + width > 6 {
            proof {
                lemma_utf8_len_grows(s@, i + 1);
            }
            return false;
        }
        bytes = bytes + width;
        i += 1;
    }
    proof {
        assert(s@.take(n as int) =~= s@);
    }
    bytes == 6
}

proof fn lemma_utf8_len_grows(s: Seq<char>, k: int)
    requires
        0 <= k <= s.len(),
    ensures
        utf8_len(s.take(k)) <= utf8_len(s),
    decreases s.len() - k,
{
    if k < s.len() {
        lemma_utf8_len_grows(s, k + 1);
        assert(s.take(k + 1).drop_last() =~= s.take(k));
    } else {
        assert(s.take(k) =~= s);
    }
}

fn hex_digit_value(c: char) -> (r: Option<u8>)
    ensures
        match hex_value(c) {
            Some(v) => r == Some(v as u8) && 0 <= v < 16,
            None => r is None,
        },
{
    let u = c as u32;
    proof {
        vstd::utf8::char_u32_cast(c, u);
    }
    if 48 <= u && u <= 57 {
        Some((u - 48) as u8)
    } else if 97 <= u && u <= 102 {
        Some((u - 87) as u8)
    } else if 65 <= u && u <= 70 {
        Some((u - 55) as u8)
    } else {
        None
    }
}

fn parse_pair(c1: char, c2: char) -> (r: Option<u8>)
    ensures
        r == pair_value(c1, c2),
{
    let d1 = hex_digit_value(c1);
    let d2 = hex_digit_value(c2);
    match (d1, d2) {
        (Some(a), Some(b)) => Some(a * 16 + b),
        _ => None,
    }
}

/// The text without leading and trailing white space.
fn trim_white_space(value: &str) -> (r: &str)
    ensures
        r@ == trimmed(value@),
{
    let n = value.unicode_len();
    let mut start: usize = 0;
    proof {
        assert(value@.subrange(0, n as int) =~= value@);
    }
    while start < n && white_space(value.get_char(start))
        invariant
            n == value@.len(),
            start <= n,
            trim_start(value@) == trim_start(value@.subrange(start as int, n as int)),
        decreases n - start,
    {
        proof {
            assert(value@.subrange(start as int, n as int).drop_first() =~= value@.subrange(start + 1, n as int));
        }
        start += 1;
    }
    let ghost rest = value@.subrange(start as int, n as int);
    proof {
        assert(trim_start(rest) == rest);
    }
    let mut end: usize = n;
    while end > start && white_space(value.get_char(end - 1))
        invariant
            n == value@.len(),
            start <= end <= n,
            rest == value@.subrange(start as int, n as int),
            trim_end(rest) == trim_end(value@.subrange(start as int, end as int)),
        decreases end - start,
    {
        proof {
            assert(value@.subrange(start as int, end as int).drop_last() =~= value@.subrange(start as int, end - 1));
        }
        end -= 1;
    }
    value.substring_char(start, end)
}

/// Parse a `#rrggbb` or `rrggbb` color string into an RGB tuple.
pub fn parse_hex_color(value: &str) -> (r: Result<(u8, u8, u8), String>)
    requires
        hex_pairs_cut_cleanly(value@),
    ensures
        match spec_parse_hex_color(value@) {
            Ok(c) => r == Ok::<(u8, u8, u8), String>(c),
            Err(m) => r is Err && r->Err_0@ == m,
        },
{
    let v = trim_white_space(value);
    let vn = v.unicode_len();
    let hex = if vn > 0 && v.get_char(0) == '#' {
        v.substring_char(1, vn)
    } else {
        v
    };
    proof {
        if vn > 0 && v@[0] == '#' {
            assert(hex@ =~= v@.drop_first());
        }
        reveal_strlit("Invalid hex color '");
        reveal_strlit("': expected 6 hex digits (e.g. \"#ff0000\")");
        reveal_strlit("'");
        assert(hex@ == hex_digits(trimmed(value@)));
    }
    if !has_six_bytes(hex) {
        let mut message = String::from_str("Invalid hex color '");
        message.append(v);
        message.append("': expected 6 hex digits (e.g. \"#ff0000\")");
        return Err(message);
    }
    let hn = hex.unicode_len();
    if hn == 6 {
        let r = parse_pair(hex.get_char(0), hex.get_char(1));
        let g = parse_pair(hex.get_char(2), hex.get_char(3));
        let b = parse_pair(hex.get_char(4), hex.get_char(5));
        match (r, g, b) {
            (Some(r), Some(g), Some(b)) => {
                proof {
                    assert(hex@.len() == 6);
                    assert(pair_value(hex@[0], hex@[1]) == Some(r));
                }
                return Ok((r, g, b));
            },
            _ => {},
        }
    }
    let mut message = String::from_str("Invalid hex color '");
    message.append(v);
    message.append("'");
    Err(message)
}

/// The background color used when none is configured: white.
pub open spec fn default_background_color() -> (u8, u8, u8) {
    (255u8, 255u8, 255u8)
}

/// The effective background color: the configured one, or white.
pub fn resolved_background_color(background_color: Option<(u8, u8, u8)>) -> (r: (u8, u8, u8))
    ensures
        r == match background_color {
            Some(c) => c,
            None => default_background_color(),
        },
{
    match background_color {
        Some(c) => c,
        None => (255, 255, 255),
    }
}


/// The integer settings of a tracing configuration that the adaptive
/// high-detail decisions read.
#[derive(Debug, Clone, Copy, PartialEq, Eq)]
pub struct DetailSettings {
    /// The quality preset the configuration was derived from.
    pub quality_preset: QualityPreset,
    /// Whether preprocessing is enabled.
    pub enable_preprocessing: bool,
    /// Whether denoising is enabled.
    pub enable_denoising: bool,
    /// Number of palette colors requested.
    pub color_count: u16,
}

/// The settings describe a dense high-detail trace: the high preset with
/// preprocessing and denoising on and at least 32 colors requested.
pub open spec fn is_rich_high_detail(settings: DetailSettings) -> bool {
    settings.quality_preset == QualityPreset::High && settings.enable_preprocessing && settings.enable_denoising
        && settings.color_count >= 32
}

fn rich_high_detail(settings: &DetailSettings) -> (r: bool)
    ensures
        r == is_rich_high_detail(*settings),
{
    settings.quality_preset.is_high() && settings.enable_preprocessing && settings.enable_denoising
        && settings.color_count >= 32
}

/// The scale of the tracing grid: twice the image resolution for the high
/// preset, the image resolution otherwise.
pub fn tracing_scale(quality_preset: QualityPreset) -> (r: u32)
    ensures
        r == (if quality_preset == QualityPreset::High {
            2u32
        } else {
            1u32
        }),
{
    if quality_preset.is_high() {
        2
    } else {
        1
    }
}

/// The largest label island that segmentation reassigns: 32 pixels for rich
/// high-detail traces with a palette of at least 16 colors, none otherwise.
pub open spec fn tiny_area_limit(settings: DetailSettings, palette_len: int) -> usize {
    if is_rich_high_detail(settings) && palette_len >= 16 {
        32usize
    } else {
        0usize
    }
}

/// The largest label island that segmentation reassigns (see
/// `tiny_area_limit`).
pub fn tiny_component_cleanup_area_threshold(settings: &DetailSettings, palette_len: usize) -> (r: usize)
    ensures
        r == tiny_area_limit(*settings, palette_len as int),
{
    if rich_high_detail(settings) && palette_len >= 16 {
        32
    } else {
        0
    }
}

/// Whether a high-detail trace is dense enough to scale its SVG thresholds
/// with resolution: a rich high-detail configuration, a palette of at least 16
/// colors, at least 1024 extracted contours, a trace area of at least
/// 1048576 pixels, and at most 160 trace pixels per contour.
pub fn should_apply_high_detail_resolution_scaling(
    settings: &DetailSettings,
    palette_len: usize,
    trace_width: u32,
    trace_height: u32,
    extracted_contours: usize,
) -> (r: bool)
    ensures
        r == (is_rich_high_detail(*settings) && palette_len >= 16 && extracted_contours >= 1024 && trace_width
            * trace_height >= 1048576 && extracted_contours * 160 >= trace_width * trace_height),
{
    if !rich_high_detail(settings) || palette_len < 16 || extracted_contours < 1024 {
        return false;
    }
    proof {
        assert(trace_width * trace_height <= 0xffff_ffff * 0xffff_ffff) by (nonlinear_arith)
            requires
                trace_width <= 0xffff_ffff,
                trace_height <= 0xffff_ffff,
        ;
    }
    let trace_area = trace_width as u64 * trace_height as u64;
    trace_area >= 1048576 && (extracted_contours as u128) * 160 >= trace_area as u128
}

/// Whether a dense high-detail trace raises its SVG minimum region area: a
/// rich high-detail configuration that keeps the preset's minimum region
/// area, a palette of at least 16 colors, at least 1024 extracted contours,
/// and at most 320 trace pixels per contour.
pub fn should_raise_high_detail_min_region_area(
    settings: &DetailSettings,
    uses_default_min_region_area: bool,
    palette_len: usize,
    trace_width: u32,
    trace_height: u32,
    extracted_contours: usize,
) -> (r: bool)
    ensures
        r == (is_rich_high_detail(*settings) && uses_default_min_region_area && palette_len >= 16
            && extracted_contours >= 1024 && extracted_contours * 320 >= trace_width * trace_height),
{
    if !rich_high_detail(settings) || palette_len < 16 || !uses_default_min_region_area || extracted_contours < 1024 {
        return false;
    }
    proof {
        assert(trace_width * trace_height <= 0xffff_ffff * 0xffff_ffff) by (nonlinear_arith)
            requires
                trace_width <= 0xffff_ffff,
                trace_height <= 0xffff_ffff,
        ;
    }
    let trace_pixel_count = trace_width as u64 * trace_height as u64;
    (extracted_contours as u128) * 320 >= trace_pixel_count as u128
}

} // verus!
