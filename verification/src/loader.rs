//! Image loading from byte slices, and recognition of bitmap file names.
//!
//! Decoding is done by the `image` crate; the library holds the decoded
//! image as 8-bit RGBA samples.

use vstd::prelude::*;
use vstd::string::*;

use crate::config::{ascii_lowered, equals_ignoring_case};
use crate::error::VectizeError;

verus! {

/// A decoded image: `width` by `height` pixels of four 8-bit samples (red,
/// green, blue, alpha), row by row.
#[derive(Debug, Clone)]
pub struct Bitmap {
    /// Width in pixels.
    pub width: u32,
    /// Height in pixels.
    pub height: u32,
    /// The samples, four per pixel.
    pub rgba: Vec<u8>,
}

impl Bitmap {
    /// The sample buffer holds exactly four samples per pixel.
    pub open spec fn wf(&self) -> bool {
        self.rgba@.len() == 4 * (self.width * self.height)
    }
}

/// Why decoding image bytes failed.
#[derive(Debug)]
pub enum DecodeFailure {
    /// Reading the bytes failed.
    Io(String),
    /// The bytes are in no format the decoder supports.
    Unsupported,
    /// The bytes are in a supported format but could not be decoded.
    Decode(String),
}

/// The file extensions recognized as bitmap images, in lower case.
pub open spec fn supported_extensions() -> Seq<Seq<char>> {
    seq![
        "png"@,
        "jpg"@,
        "jpeg"@,
        "webp"@,
        "bmp"@,
        "gif"@,
        "ico"@,
        "pnm"@,
        "pbm"@,
        "pgm"@,
        "ppm"@,
        "pam"@,
        "tga"@,
        "tif"@,
        "tiff"@,
    ]
}

/// The summary of supported formats named in error messages.
pub open spec fn supported_formats_summary() -> Seq<char> {
    "PNG, JPEG/JPG, WebP, BMP, GIF, ICO, PNM, TGA, and TIFF"@
}

/// The message for input in an unsupported format: the file it came from
/// (or "Input bytes"), the format its extension hints at, if any, and the
/// supported formats.
pub open spec fn unsupported_message(path: Option<Seq<char>>, format_name: Option<Seq<char>>) -> Seq<char> {
    let source = match path {
        Some(p) => "File '"@ + p + "'"@,
        None => "Input bytes"@,
    };
    let detected = match format_name {
        Some(n) => "Detected format hint: "@ + n + ". "@,
        None => seq![],
    };
    source + " is not a supported bitmap image. "@ + detected + "Supported inputs include "@
        + supported_formats_summary() + "."@
}

/// The message for bytes in an unsupported format.
pub open spec fn unsupported_bytes_message() -> Seq<char> {
    unsupported_message(None, None)
}

/// The message for a file in an unsupported format, with the name of the
/// format its extension hints at, if any.
pub open spec fn unsupported_file_message(path: Seq<char>, format_name: Option<Seq<char>>) -> Seq<char> {
    unsupported_message(Some(path), format_name)
}

/// The `image` crate's name for the format a file extension stands for
/// (`ImageFormat::from_extension`, named as its `Debug` form prints it),
/// ignoring ASCII case.
pub open spec fn extension_format_name(extension: Seq<char>) -> Option<Seq<char>> {
    let e = ascii_lowered(extension);
    if e == "avif"@ {
        Some("Avif"@)
    } else if e == "jpg"@ || e == "jpeg"@ || e == "jfif"@ {
        Some("Jpeg"@)
    } else if e == "png"@ || e == "apng"@ {
        Some("Png"@)
    } else if e == "gif"@ {
        Some("Gif"@)
    } else if e == "webp"@ {
        Some("WebP"@)
    } else if e == "tif"@ || e == "tiff"@ {
        Some("Tiff"@)
    } else if e == "tga"@ {
        Some("Tga"@)
    } else if e == "dds"@ {
        Some("Dds"@)
    } else if e == "bmp"@ {
        Some("Bmp"@)
    } else if e == "ico"@ {
        Some("Ico"@)
    } else if e == "hdr"@ {
        Some("Hdr"@)
    } else if e == "exr"@ {
        Some("OpenExr"@)
    } else if e == "pbm"@ || e == "pam"@ || e == "ppm"@ || e == "pgm"@ || e == "pnm"@ {
        Some("Pnm"@)
    } else if e == "ff"@ {
        Some("Farbfeld"@)
    } else if e == "qoi"@ {
        Some("Qoi"@)
    } else {
        None
    }
}

/// The format name a file extension hints at, for a path with that
/// extension (or none).
pub open spec fn extension_hint(extension: Option<Seq<char>>) -> Option<Seq<char>> {
    match extension {
        Some(e) => extension_format_name(e),
        None => None,
    }
}

/// Whether `extension` names a supported bitmap format, ignoring ASCII case.
pub fn is_supported_extension(extension: &str) -> (r: bool)
    ensures
        r == supported_extensions().contains(ascii_lowered(extension@)),
{
    proof {
        reveal_strlit("png");
        reveal_strlit("jpg");
        reveal_strlit("jpeg");
        reveal_strlit("webp");
        reveal_strlit("bmp");
        reveal_strlit("gif");
        reveal_strlit("ico");
        reveal_strlit("pnm");
        reveal_strlit("pbm");
        reveal_strlit("pgm");
        reveal_strlit("ppm");
        reveal_strlit("pam");
        reveal_strlit("tga");
        reveal_strlit("tif");
        reveal_strlit("tiff");
    }
    let r = equals_ignoring_case(extension, "png") || equals_ignoring_case(extension, "jpg")
        || equals_ignoring_case(extension, "jpeg") || equals_ignoring_case(extension, "webp")
        || equals_ignoring_case(extension, "bmp") || equals_ignoring_case(extension, "gif")
        || equals_ignoring_case(extension, "ico") || equals_ignoring_case(extension, "pnm")
        || equals_ignoring_case(extension, "pbm") || equals_ignoring_case(extension, "pgm")
        || equals_ignoring_case(extension, "ppm") || equals_ignoring_case(extension, "pam")
        || equals_ignoring_case(extension, "tga") || equals_ignoring_case(extension, "tif")
        || equals_ignoring_case(extension, "tiff");
    proof {
        let e = ascii_lowered(extension@);
        let list = supported_extensions();
        if list.contains(e) {
            let i = choose|i: int| 0 <= i < list.len() && list[i] == e;
            assert(r);
        }
        if r {
            assert(list.contains(e)) by {
                if e == "png"@ {
                    assert(list[0] == e);
                } else if e == "jpg"@ {
                    assert(list[1] == e);
                } else if e == "jpeg"@ {
                    assert(list[2] == e);
                } else if e == "webp"@ {
                    assert(list[3] == e);
                } else if e == "bmp"@ {
                    assert(list[4] == e);
                } else if e == "gif"@ {
                    assert(list[5] == e);
                } else if e == "ico"@ {
                    assert(list[6] == e);
                } else if e == "pnm"@ {
                    assert(list[7] == e);
                } else if e == "pbm"@ {
                    assert(list[8] == e);
                } else if e == "pgm"@ {
                    assert(list[9] == e);
                } else if e == "ppm"@ {
                    assert(list[10] == e);
                } else if e == "pam"@ {
                    assert(list[11] == e);
                } else if e == "tga"@ {
                    assert(list[12] == e);
                } else if e == "tif"@ {
                    assert(list[13] == e);
                } else {
                    assert(list[14] == e);
                }
            }
        }
    }
    r
}

/// `path` holds a `.` directly followed by `extension`.
pub open spec fn has_dotted_part(path: Seq<char>, extension: Seq<char>) -> bool {
    exists|i: int|
        0 <= i && i + extension.len() + 1 <= path.len() && #[trigger] path.subrange(i, i + extension.len() + 1)
            == seq!['.'] + extension
}

/// Position of the last `c` in the text, or `-1` when there is none.
pub open spec fn last_index_of(s: Seq<char>, c: char) -> int
    decreases s.len(),
{
    if s.len() == 0 {
        -1
    } else if s.last() == c {
        s.len() - 1
    } else {
        last_index_of(s.drop_last(), c)
    }
}

/// The last `/`-separated segment of a path: the text after its last `/`.
pub open spec fn last_segment(s: Seq<char>) -> Seq<char> {
    s.subrange(last_index_of(s, '/') + 1, s.len() as int)
}

/// The path's last component is its last `/`-separated segment on every
/// platform: the path holds no `\\` and no drive-prefix colon, and that
/// segment is neither empty (a trailing `/`) nor `.` nor `..`.
pub open spec fn has_plain_last_segment(s: Seq<char>) -> bool {
    let seg = last_segment(s);
    &&& forall|i: int| 0 <= i < s.len() ==> #[trigger] s[i] != '\\' && s[i] != ':'
    &&& seg.len() > 0
    &&& seg != seq!['.']
    &&& seg != seq!['.', '.']
}

/// The extension of a file name: the part after its final `.`, unless there
/// is no `.` or the only one opens the name.
pub open spec fn file_name_extension(s: Seq<char>) -> Option<Seq<char>> {
    let k = last_index_of(s, '.');
    if k <= 0 {
        None
    } else {
        Some(s.subrange(k + 1, s.len() as int))
    }
}

/// The extension of the last component of a path, as `std::path::Path::extension`
/// finds it, when it is valid UTF-8. The documentation of `Path::extension`
/// makes it the part of the file name (the last component) after its final
/// `.`, and none when the name has no `.` or only a leading one; that of
/// `Path::components` splits a path at its separators (`/`, and on Windows
/// also `\\`, after a drive prefix), ignores repeated and trailing separators
/// and drops `.` components but a leading one. A path made from text is valid
/// Unicode, and so is each part of it split at a `.`. So a result stands in
/// the path right after a `.`, and for a path whose last `/`-separated segment
/// is a plain name (`has_plain_last_segment`) the result is
/// `file_name_extension` of that segment. Where the last component of any
/// other path ends follows the conventions of the platform the program runs
/// on and is left unstated.
#[verifier::external_body]
fn file_extension(path: &str) -> (r: Option<String>)
    ensures
        r matches Some(e) ==> has_dotted_part(path@, e@),
        has_plain_last_segment(path@) ==> match file_name_extension(last_segment(path@)) {
            Some(e) => r matches Some(x) && x@ == e,
            None => r is None,
        },
{
    match std::path::Path::new(path).extension() {
        Some(extension) => match extension.to_str() {
            Some(text) => Some(text.to_string()),
            None => None,
        },
        None => None,
    }
}

/// Return `true` when the path uses a bitmap extension recognized by the
/// loader, ignoring case.
///
/// This helper is mainly intended for directory scanning and pre-filtering.
pub fn is_supported_bitmap_path(path: &str) -> (r: bool)
    ensures
        r ==> exists|e: Seq<char>|
            supported_extensions().contains(#[trigger] ascii_lowered(e)) && has_dotted_part(path@, e),
        (forall|i: int| 0 <= i < path@.len() ==> path@[i] != '.') ==> !r,
        has_plain_last_segment(path@) ==> r == match file_name_extension(last_segment(path@)) {
            Some(e) => supported_extensions().contains(ascii_lowered(e)),
            None => false,
        },
{
    match file_extension(path) {
        Some(extension) => {
            let r = is_supported_extension(extension.as_str());
            proof {
                let i = choose|i: int|
                    0 <= i && i + extension@.len() + 1 <= path@.len() && #[trigger] path@.subrange(
                        i,
                        i + extension@.len() + 1,
                    ) == seq!['.'] + extension@;
                assert(path@.subrange(i, i + extension@.len() + 1)[0] == '.');
                assert(path@[i] == '.');
            }
            r
        },
        None => false,
    }
}

#[verifier::external_type_specification]
#[verifier::external_body]
pub struct ExImageFormat(image::ImageFormat);

/// `image::ImageFormat::from_extension`: the format a file extension stands
/// for, with the name its derived `Debug` form prints. The source matches the
/// extension, lower-cased in ASCII, against a fixed table; the contract states
/// that table (`extension_format_name`).
#[verifier::external_body]
fn format_from_extension(extension: &str) -> (r: Option<(image::ImageFormat, String)>)
    ensures
        match extension_format_name(extension@) {
            Some(n) => r matches Some((_, name)) && name@ == n,
            None => r is None,
        },
{
    match image::ImageFormat::from_extension(extension) {
        Some(format) => Some((format, format!("{format:?}"))),
        None => None,
    }
}

/// Decode image bytes with the `image` crate and convert the image to 8-bit
/// RGBA samples: an `ImageReader` with the given format, if any, then a format
/// guessed from the leading bytes when they reveal one, then `decode`. The
/// contract claims only that a decoded image holds four samples per pixel
/// (`to_rgba8` allocates exactly that); which bytes decode, and to what, is
/// left unstated: it rests on the decoders and on the format-guessing hooks
/// registered in the running process.
#[verifier::external_body]
fn decode_image_bytes(bytes: &[u8], format: Option<image::ImageFormat>) -> (r: Result<
    (u32, u32, Vec<u8>),
    DecodeFailure,
>)
    ensures
        r matches Ok((w, h, data)) ==> data@.len() == 4 * (w * h),
{
    let cursor = std::io::Cursor::new(bytes);
    let reader = match format {
        Some(format) => image::ImageReader::with_format(cursor, format),
        None => image::ImageReader::new(cursor),
    };
    let decoded = match reader.with_guessed_format() {
        Ok(reader) => reader.decode(),
        Err(error) => return Err(DecodeFailure::Io(error.to_string())),
    };
    match decoded {
        Ok(img) => Ok((img.width(), img.height(), img.to_rgba8().into_raw())),
        Err(image::ImageError::Unsupported(_)) => Err(DecodeFailure::Unsupported),
        Err(error) => Err(DecodeFailure::Decode(error.to_string())),
    }
}

/// The library error for a failed decoding of input: unsupported formats get
/// a message naming the file, if any, the format its extension hints at, and
/// the supported formats.
pub fn unsupported_format_or_decode_error(
    failure: DecodeFailure,
    path: Option<&str>,
    format_name: Option<String>,
) -> (r: VectizeError)
    ensures
        match failure {
            DecodeFailure::Io(m) => r matches VectizeError::Io(rm) && rm@ == m@,
            DecodeFailure::Unsupported => r matches VectizeError::UnsupportedFormat(rm) && rm@ == unsupported_message(
                match path {
                    Some(p) => Some(p@),
                    None => None,
                },
                match format_name {
                    Some(n) => Some(n@),
                    None => None,
                },
            ),
            DecodeFailure::Decode(m) => r matches VectizeError::ImageDecode(rm) && rm@ == m@,
        },
{
    match failure {
        DecodeFailure::Io(m) => VectizeError::Io(m),
        DecodeFailure::Unsupported => {
            proof {
                reveal_strlit("File '");
                reveal_strlit("'");
                reveal_strlit("Input bytes");
                reveal_strlit(" is not a supported bitmap image. ");
                reveal_strlit("Detected format hint: ");
                reveal_strlit(". ");
                reveal_strlit("Supported inputs include ");
                reveal_strlit("PNG, JPEG/JPG, WebP, BMP, GIF, ICO, PNM, TGA, and TIFF");
                reveal_strlit(".");
            }
            let mut message = match path {
                Some(p) => {
                    let mut m = String::from_str("File '");
                    m.append(p);
                    m.append("'");
                    m
                },
                None => String::from_str("Input bytes"),
            };
            message.append(" is not a supported bitmap image. ");
            match format_name {
                Some(n) => {
                    message.append("Detected format hint: ");
                    message.append(n.as_str());
                    message.append(". ");
                },
                None => {},
            }
            message.append("Supported inputs include ");
            message.append("PNG, JPEG/JPG, WebP, BMP, GIF, ICO, PNM, TGA, and TIFF");
            message.append(".");
            VectizeError::UnsupportedFormat(message)
        },
        DecodeFailure::Decode(m) => VectizeError::ImageDecode(m),
    }
}

/// Load an image from raw bytes; the format is inferred from the leading
/// bytes.
pub fn load_from_bytes(bytes: &[u8]) -> (r: Result<Bitmap, VectizeError>)
    ensures
        r matches Ok(b) ==> b.wf(),
        r matches Err(e) ==> (e is Io || e is ImageDecode || (e matches VectizeError::UnsupportedFormat(m) && m@
            == unsupported_bytes_message())),
{
    match decode_image_bytes(bytes, None) {
        Ok((width, height, rgba)) => Ok(Bitmap { width, height, rgba }),
        Err(failure) => Err(unsupported_format_or_decode_error(failure, None, None)),
    }
}

/// Load an image from the bytes of the file at `path`. The format the path's
/// extension names is tried unless the leading bytes reveal another, so
/// supported images load even when the file extension is missing or
/// non-standard; an unsupported file is reported with its path and the
/// format its extension hints at.
pub fn load_from_file_bytes(path: &str, bytes: &[u8]) -> (r: Result<Bitmap, VectizeError>)
    ensures
        r matches Ok(b) ==> b.wf(),
        r matches Err(e) ==> (e is Io || e is ImageDecode || (e matches VectizeError::UnsupportedFormat(m) && exists|
            extension: Option<Seq<char>>,
        |
            m@ == unsupported_file_message(path@, #[trigger] extension_hint(extension)) && (extension matches Some(x)
                ==> has_dotted_part(path@, x)) && (has_plain_last_segment(path@) ==> extension == file_name_extension(
                last_segment(path@),
            )))),
{
    let extension = file_extension(path);
    let ghost extension_view: Option<Seq<char>> = match &extension {
        Some(e) => Some(e@),
        None => None,
    };
    let (format, format_name) = match &extension {
        Some(e) => match format_from_extension(e.as_str()) {
            Some((format, name)) => (Some(format), Some(name)),
            None => (None, None),
        },
        None => (None, None),
    };
    proof {
        assert(match format_name {
            Some(n) => extension_hint(extension_view) == Some(n@),
            None => extension_hint(extension_view) is None,
        });
    }
    match decode_image_bytes(bytes, format) {
        Ok((width, height, rgba)) => Ok(Bitmap { width, height, rgba }),
        Err(failure) => Err(unsupported_format_or_decode_error(failure, Some(path), format_name)),
    }
}

} // verus!
