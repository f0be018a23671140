use vectize::error::VectizeError;
use vectize::loader::{is_supported_bitmap_path, is_supported_extension, load_from_bytes, load_from_file_bytes, Bitmap};
use vectize::preprocess::{color_delta, gaussian_blur, pixels_of, preprocess, resample_for_tracing};

fn png_bytes(width: u32, height: u32, pixel: [u8; 4]) -> Vec<u8> {
    let img = image::RgbaImage::from_pixel(width, height, image::Rgba(pixel));
    let mut out = std::io::Cursor::new(Vec::new());
    img.write_to(&mut out, image::ImageFormat::Png).unwrap();
    out.into_inner()
}

fn solid_bitmap(width: u32, height: u32, pixel: [u8; 4]) -> Bitmap {
    let mut rgba = Vec::new();
    for _ in 0..(width * height) {
        rgba.extend_from_slice(&pixel);
    }
    Bitmap { width, height, rgba }
}

#[test]
fn lib_trace_bytes_invalid_data_returns_error() {
    // Tracing starts by decoding the bytes; bytes that are no image fail there.
    let result = load_from_bytes(b"not an image");
    assert!(result.is_err());
}

#[test]
fn integration_tests_trace_bytes_invalid_data_returns_error() {
    let result = load_from_bytes(b"not an image");
    assert!(result.is_err());
}

#[test]
fn load_from_bytes_names_supported_formats_for_unknown_bytes() {
    match load_from_bytes(b"not an image") {
        Err(VectizeError::UnsupportedFormat(message)) => {
            assert_eq!(
                message,
                "Input bytes is not a supported bitmap image. Supported inputs include PNG, JPEG/JPG, WebP, BMP, GIF, ICO, PNM, TGA, and TIFF."
            );
        }
        other => panic!("unexpected result: {other:?}"),
    }
}

#[test]
fn load_from_bytes_decodes_png() {
    let bitmap = load_from_bytes(&png_bytes(3, 2, [10, 20, 30, 255])).unwrap();
    assert_eq!(bitmap.width, 3);
    assert_eq!(bitmap.height, 2);
    assert_eq!(bitmap.rgba.len(), 24);
    assert_eq!(&bitmap.rgba[0..4], &[10, 20, 30, 255]);
}

#[test]
fn load_from_bytes_reports_broken_png_as_decode_error() {
    let mut bytes = png_bytes(3, 2, [10, 20, 30, 255]);
    bytes.truncate(40);
    assert!(matches!(
        load_from_bytes(&bytes),
        Err(VectizeError::ImageDecode(_)) | Err(VectizeError::Io(_))
    ));
}

#[test]
fn load_from_file_accepts_content_sniffed_images_and_rejects_non_images() {
    assert!(is_supported_bitmap_path("image.bmp"));
    assert!(is_supported_bitmap_path("image.TIFF"));
    assert!(!is_supported_bitmap_path("image.svg"));

    let sniffed = load_from_file_bytes("vectize_loader_sniffed.image", &png_bytes(2, 2, [255, 0, 0, 255])).unwrap();
    assert_eq!(sniffed.width, 2);
    assert_eq!(sniffed.height, 2);

    let invalid = load_from_file_bytes("vectize_loader_invalid.txt", b"not an image").unwrap_err();
    assert!(matches!(invalid, VectizeError::UnsupportedFormat(_)));
    assert!(invalid
        .message()
        .contains("PNG, JPEG/JPG, WebP, BMP, GIF, ICO, PNM, TGA, and TIFF"));
}

#[test]
fn load_from_file_bytes_names_the_file_and_its_format_hint() {
    match load_from_file_bytes("shots/x.qoi", b"not an image") {
        Err(VectizeError::UnsupportedFormat(message)) => {
            assert_eq!(
                message,
                "File 'shots/x.qoi' is not a supported bitmap image. Detected format hint: Qoi. Supported inputs include PNG, JPEG/JPG, WebP, BMP, GIF, ICO, PNM, TGA, and TIFF."
            );
        }
        other => panic!("unexpected result: {other:?}"),
    }
    assert!(matches!(
        load_from_file_bytes("shots/x.png", b"not an image"),
        Err(VectizeError::ImageDecode(_))
    ));
    match load_from_file_bytes("notes.txt", b"not an image") {
        Err(VectizeError::UnsupportedFormat(message)) => {
            assert_eq!(
                message,
                "File 'notes.txt' is not a supported bitmap image. Supported inputs include PNG, JPEG/JPG, WebP, BMP, GIF, ICO, PNM, TGA, and TIFF."
            );
        }
        other => panic!("unexpected result: {other:?}"),
    }
    match load_from_file_bytes("scan.TIF", b"not an image") {
        Err(VectizeError::UnsupportedFormat(message)) => {
            assert!(message.contains("Detected format hint: Tiff. "));
        }
        Err(VectizeError::ImageDecode(_)) => {}
        other => panic!("unexpected result: {other:?}"),
    }
}

#[test]
fn load_from_file_bytes_sniffs_the_content() {
    let bytes = png_bytes(2, 2, [255, 0, 0, 255]);
    let bitmap = load_from_file_bytes("picture.image", &bytes).unwrap();
    assert_eq!((bitmap.width, bitmap.height), (2, 2));
    let renamed = load_from_file_bytes("picture.jpg", &bytes).unwrap();
    assert_eq!(renamed.rgba, bitmap.rgba);
}

#[test]
fn supported_extensions_ignore_case() {
    assert!(is_supported_extension("png"));
    assert!(is_supported_extension("JPEG"));
    assert!(is_supported_extension("TiF"));
    assert!(!is_supported_extension("svg"));
    assert!(!is_supported_extension(""));
}

#[test]
fn supported_bitmap_paths_are_recognized_by_extension() {
    assert!(is_supported_bitmap_path("image.bmp"));
    assert!(is_supported_bitmap_path("dir/photo.TIFF"));
    assert!(is_supported_bitmap_path("dir/image.png"));
    assert!(is_supported_bitmap_path("a/b/c.JpEg"));
    assert!(!is_supported_bitmap_path("dir.png/README"));
    assert!(!is_supported_bitmap_path("dir/notes.txt"));
    assert!(!is_supported_bitmap_path("image.svg"));
    assert!(!is_supported_bitmap_path("README"));
    assert!(!is_supported_bitmap_path(".png"));
}

#[test]
fn color_delta_is_largest_channel_difference() {
    assert_eq!(color_delta([0, 0, 0, 255], [10, 200, 3, 255]), 200);
    assert_eq!(color_delta([50, 50, 50, 0], [40, 60, 50, 0]), 10);
    assert_eq!(color_delta([1, 2, 3, 4], [1, 2, 3, 4]), 0);
}

#[test]
fn edge_aware_blur_preserves_hard_boundaries() {
    let mut img = Vec::new();
    for _y in 0..3 {
        for x in 0..3 {
            if x < 2 {
                img.push([0, 0, 0, 255]);
            } else {
                img.push([255, 255, 255, 255]);
            }
        }
    }

    let blurred = gaussian_blur(&img, 3, 3);
    let edge_pixel = blurred[4];

    assert!(
        edge_pixel[0] < 16,
        "edge-aware blur should not wash hard black/white boundaries into grey: {edge_pixel:?}"
    );
}

#[test]
fn gaussian_blur_averages_similar_neighbors_and_keeps_the_border() {
    // Center 40, the rest 0: all within the edge-aware delta.
    let mut img = vec![[0u8, 0, 0, 255]; 9];
    img[4] = [40, 40, 40, 255];
    let blurred = gaussian_blur(&img, 3, 3);
    // 40 * 4 / 16 = 10
    assert_eq!(blurred[4], [10, 10, 10, 255]);
    for index in [0usize, 1, 2, 3, 5, 6, 7, 8] {
        assert_eq!(blurred[index], [0, 0, 0, 255]);
    }
}

#[test]
fn preprocess_blurs_only_when_enabled() {
    let mut bitmap = solid_bitmap(3, 3, [0, 0, 0, 255]);
    bitmap.rgba[16..20].copy_from_slice(&[40, 40, 40, 255]);
    let plain = preprocess(&bitmap, true, false);
    assert_eq!(plain, pixels_of(&bitmap));
    let skipped = preprocess(&bitmap, false, true);
    assert_eq!(skipped, pixels_of(&bitmap));
    let denoised = preprocess(&bitmap, true, true);
    assert_eq!(denoised[4], [10, 10, 10, 255]);
}

#[test]
fn resample_for_tracing_scales_dimensions() {
    let img = solid_bitmap(4, 3, [10, 20, 30, 255]);
    let scaled = resample_for_tracing(&img, 2);

    assert_eq!((scaled.width, scaled.height), (8, 6));
    let index = (2 * 8 + 4) * 4;
    assert_eq!(&scaled.rgba[index..index + 4], &[10, 20, 30, 255]);
}

#[test]
fn resample_for_tracing_copies_for_unit_scale() {
    let img = solid_bitmap(2, 2, [1, 2, 3, 4]);
    let same = resample_for_tracing(&img, 1);
    assert_eq!((same.width, same.height), (2, 2));
    assert_eq!(same.rgba, img.rgba);
}
