use vectize::contour::{
    contour_is_hole, contour_twice_signed_area, extract_contours, region_summaries, summarize_contours, Point,
};
use vectize::segment::{PaletteColor, SegmentationResult};

fn black_and_white(labels: Vec<u8>, width: u32, height: u32) -> SegmentationResult {
    SegmentationResult {
        palette: vec![
            PaletteColor { r: 0, g: 0, b: 0 },
            PaletteColor {
                r: 255,
                g: 255,
                b: 255,
            },
        ],
        labels,
        width,
        height,
    }
}

#[test]
fn contour_rectangle() {
    let labels = vec![0, 0, 1, 1, 0, 0, 1, 1, 1, 1, 1, 1, 1, 1, 1, 1];
    let seg = SegmentationResult {
        palette: vec![
            PaletteColor { r: 255, g: 0, b: 0 },
            PaletteColor { r: 0, g: 255, b: 0 },
        ],
        labels,
        width: 4,
        height: 4,
    };

    let contours = extract_contours(&seg);
    assert_eq!(contours[0].1.len(), 1);
    assert!(contour_twice_signed_area(&contours[0].1[0]) > 0);
}

#[test]
fn contour_ring_preserves_hole() {
    let labels = vec![
        1, 1, 1, 1, 1, 1, 1, //
        1, 0, 0, 0, 0, 0, 1, //
        1, 0, 1, 1, 1, 0, 1, //
        1, 0, 1, 1, 1, 0, 1, //
        1, 0, 1, 1, 1, 0, 1, //
        1, 0, 0, 0, 0, 0, 1, //
        1, 1, 1, 1, 1, 1, 1, //
    ];
    let seg = black_and_white(labels, 7, 7);

    let contours = extract_contours(&seg);
    let black_contours = &contours[0].1;
    assert_eq!(black_contours.len(), 2);
    assert_eq!(
        black_contours
            .iter()
            .filter(|contour| contour_is_hole(contour))
            .count(),
        1
    );
}

#[test]
fn diagonal_pixels_trace_as_separate_loops() {
    let labels = vec![0, 1, 1, 0];
    let seg = black_and_white(labels, 2, 2);

    let contours = extract_contours(&seg);
    assert_eq!(contours[0].1.len(), 2);
}

#[test]
fn diagonal_pixels_trace_as_two_unit_squares() {
    let seg = black_and_white(vec![0, 1, 1, 0], 2, 2);
    let contours = extract_contours(&seg);
    assert_eq!(contours[0].0, 0);
    assert_eq!(
        contours[0].1,
        vec![
            vec![Point::new(0, 0), Point::new(1, 0), Point::new(1, 1), Point::new(0, 1)],
            vec![Point::new(1, 1), Point::new(2, 1), Point::new(2, 2), Point::new(1, 2)],
        ]
    );
}

#[test]
fn full_byte_palette_traces_every_used_index() {
    let palette: Vec<PaletteColor> = (0..256u32)
        .map(|i| PaletteColor { r: i as u8, g: 0, b: 0 })
        .collect();
    let seg = SegmentationResult {
        palette,
        labels: vec![0, 255],
        width: 2,
        height: 1,
    };
    let contours = extract_contours(&seg);
    let colors: Vec<u8> = contours.iter().map(|(color, _)| *color).collect();
    assert_eq!(colors, vec![0, 255]);
}

#[test]
fn single_pixel_traces_one_unit_square() {
    let seg = black_and_white(vec![0], 1, 1);
    let contours = extract_contours(&seg);
    assert_eq!(contours.len(), 1);
    assert_eq!(contours[0].0, 0);
    assert_eq!(
        contours[0].1,
        vec![vec![
            Point::new(0, 0),
            Point::new(1, 0),
            Point::new(1, 1),
            Point::new(0, 1)
        ]]
    );
    assert_eq!(contour_twice_signed_area(&contours[0].1[0]), 2);
}

#[test]
fn extract_contours_lists_colors_in_order() {
    let seg = black_and_white(vec![1, 0, 0, 1], 2, 2);
    let contours = extract_contours(&seg);
    let colors: Vec<u8> = contours.iter().map(|(color, _)| *color).collect();
    assert_eq!(colors, vec![0, 1]);
}

#[test]
fn extract_contours_of_empty_image_is_empty() {
    let seg = black_and_white(Vec::new(), 0, 0);
    assert!(extract_contours(&seg).is_empty());
}

#[test]
fn summarize_contours_counts_holes_and_points() {
    let groups = vec![(
        0u8,
        vec![
            vec![
                Point::new(0, 0),
                Point::new(4, 0),
                Point::new(4, 4),
                Point::new(0, 4),
            ],
            vec![
                Point::new(1, 1),
                Point::new(1, 3),
                Point::new(3, 3),
                Point::new(3, 1),
            ],
        ],
    )];

    let summary = summarize_contours(&groups);
    assert_eq!(summary.contours, 2);
    assert_eq!(summary.holes, 1);
    assert_eq!(summary.points, 8);
}

#[test]
fn contour_twice_signed_area_of_square() {
    let square = vec![
        Point::new(0, 0),
        Point::new(10, 0),
        Point::new(10, 10),
        Point::new(0, 10),
    ];
    assert_eq!(contour_twice_signed_area(&square), 200);
    assert!(!contour_is_hole(&square));
    let reversed: Vec<Point> = square.iter().rev().copied().collect();
    assert_eq!(contour_twice_signed_area(&reversed), -200);
    assert!(contour_is_hole(&reversed));
}

#[test]
fn region_summaries_skip_groups_outside_the_palette() {
    let outer = vec![
        Point::new(0, 0),
        Point::new(4, 0),
        Point::new(4, 4),
        Point::new(0, 4),
    ];
    let hole = vec![
        Point::new(1, 1),
        Point::new(1, 3),
        Point::new(3, 3),
        Point::new(3, 1),
    ];
    let palette = vec![PaletteColor { r: 1, g: 2, b: 3 }, PaletteColor { r: 4, g: 5, b: 6 }];
    let groups = vec![
        (1u8, vec![outer.clone(), hole]),
        (7u8, vec![outer.clone()]),
        (0u8, vec![outer]),
    ];
    let regions = region_summaries(&palette, &groups);
    assert_eq!(regions.len(), 2);
    assert_eq!(regions[0].color(), palette[1]);
    assert_eq!(regions[0].contour_count(), 2);
    assert_eq!(regions[0].hole_count(), 1);
    assert_eq!(regions[0].total_points(), 8);
    assert_eq!(regions[1].color(), palette[0]);
    assert_eq!(regions[1].contour_count(), 1);
    assert_eq!(regions[1].hole_count(), 0);
    assert_eq!(regions[1].total_points(), 4);
}
