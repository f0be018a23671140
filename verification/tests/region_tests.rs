use vectize::contour::{Contour, Point};
use vectize::regions::{
    contour_bounds, contour_touches_canvas_border, is_background_color, region_path_groups,
    suppressed_background_contours, ContourBounds,
};
use vectize::segment::PaletteColor;

const WHITE: PaletteColor = PaletteColor { r: 255, g: 255, b: 255 };
const WHITE_BG: (u8, u8, u8) = (255, 255, 255);

fn square(x0: i32, y0: i32, x1: i32, y1: i32) -> Contour {
    vec![Point::new(x0, y0), Point::new(x1, y0), Point::new(x1, y1), Point::new(x0, y1)]
}

fn hole(x0: i32, y0: i32, x1: i32, y1: i32) -> Contour {
    vec![Point::new(x0, y0), Point::new(x0, y1), Point::new(x1, y1), Point::new(x1, y0)]
}

#[test]
fn background_color_compares_all_channels() {
    assert!(is_background_color(WHITE, WHITE_BG));
    assert!(!is_background_color(PaletteColor { r: 255, g: 255, b: 254 }, WHITE_BG));
    assert!(is_background_color(PaletteColor { r: 1, g: 2, b: 3 }, (1, 2, 3)));
}

#[test]
fn border_touch_checks_every_edge() {
    assert!(contour_touches_canvas_border(&square(0, 2, 3, 4), 10, 10));
    assert!(contour_touches_canvas_border(&square(2, 2, 10, 4), 10, 10));
    assert!(contour_touches_canvas_border(&square(2, 2, 4, 10), 10, 10));
    assert!(!contour_touches_canvas_border(&square(2, 2, 4, 4), 10, 10));
    assert!(!contour_touches_canvas_border(&Vec::new(), 10, 10));
}

#[test]
fn suppression_keeps_holes_and_interior_islands() {
    let contours = vec![square(0, 0, 10, 10), hole(2, 2, 8, 8), square(4, 4, 6, 6)];
    assert_eq!(
        suppressed_background_contours(&contours, WHITE, WHITE_BG, 10, 10),
        vec![true, false, false]
    );
    let red = PaletteColor { r: 200, g: 0, b: 0 };
    assert_eq!(
        suppressed_background_contours(&contours, red, WHITE_BG, 10, 10),
        vec![false, false, false]
    );
}

#[test]
fn contour_bounds_cover_all_points() {
    let contour = vec![Point::new(3, -1), Point::new(7, 4), Point::new(-2, 9)];
    assert_eq!(
        contour_bounds(&contour),
        ContourBounds { min_x: -2, min_y: -1, max_x: 7, max_y: 9 }
    );
    assert_eq!(contour_bounds(&Vec::new()), ContourBounds::default());
}

#[test]
fn region_path_groups_nest_holes_under_their_outline() {
    let red = PaletteColor { r: 200, g: 0, b: 0 };
    let contours = vec![square(1, 1, 9, 9), hole(3, 3, 7, 7), square(4, 4, 6, 6)];
    let parents = vec![None, Some(0), Some(1)];
    let plan = region_path_groups(&contours, &parents, red, WHITE_BG, 10, 10);
    assert_eq!(plan.contour_groups, vec![vec![0, 1, 2]]);
    assert_eq!(plan.contours_suppressed_background, 0);
}

#[test]
fn region_path_groups_drop_border_background_but_keep_islands() {
    let contours = vec![square(0, 0, 10, 10), hole(2, 2, 8, 8), square(4, 4, 6, 6)];
    let parents = vec![None, Some(0), Some(1)];
    let plan = region_path_groups(&contours, &parents, WHITE, WHITE_BG, 10, 10);
    assert_eq!(plan.contour_groups, vec![vec![2]]);
    assert_eq!(plan.contours_suppressed_background, 1);
}

#[test]
fn region_path_groups_of_no_contours_is_empty() {
    let plan = region_path_groups(&Vec::new(), &Vec::new(), WHITE, WHITE_BG, 10, 10);
    assert!(plan.contour_groups.is_empty());
    assert_eq!(plan.contours_suppressed_background, 0);
}
