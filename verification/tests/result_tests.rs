use vectize::result::{TraceDebugInfo, TracedRegionSummary, TracingResult};
use vectize::segment::PaletteColor;
use vectize::sort::{merge_sort, LexKey};

#[test]
fn region_summary_getters_return_constructor_values() {
    let color = PaletteColor { r: 1, g: 2, b: 3 };
    let region = TracedRegionSummary::new(color, 4, 1, 37);
    assert_eq!(region.color(), color);
    assert_eq!(region.contour_count(), 4);
    assert_eq!(region.hole_count(), 1);
    assert_eq!(region.total_points(), 37);
}

#[test]
fn tracing_result_exposes_svg_dimensions_and_debug_data() {
    let color = PaletteColor { r: 9, g: 8, b: 7 };
    let debug = TraceDebugInfo::new(vec![color], vec![TracedRegionSummary::new(color, 1, 0, 4)]);
    let result = TracingResult::new("<svg/>".to_string(), 12, 7, debug);
    assert_eq!(result.svg(), "<svg/>");
    assert_eq!(result.width(), 12);
    assert_eq!(result.height(), 7);
    assert_eq!(result.debug().palette(), &[color]);
    assert_eq!(result.debug().regions().len(), 1);
    assert_eq!(result.debug().regions()[0].total_points(), 4);
    assert_eq!(result.into_svg(), "<svg/>".to_string());
}

#[test]
fn merge_sort_orders_counts_descending() {
    assert_eq!(merge_sort(vec![5u32, 1, 9, 5, 0, 7]), vec![9, 7, 5, 5, 1, 0]);
    assert_eq!(merge_sort(Vec::<u32>::new()), Vec::<u32>::new());
}

#[test]
fn merge_sort_orders_keys_lexicographically() {
    let key = |k0, k1, k2, k3| LexKey { k0, k1, k2, k3 };
    let sorted = merge_sort(vec![key(1, 0, 0, 0), key(0, 5, 0, 0), key(0, 5, 0, 1), key(0, 2, 9, 9)]);
    let parts: Vec<(u64, u64, u64, u64)> = sorted.iter().map(|k| (k.k0, k.k1, k.k2, k.k3)).collect();
    assert_eq!(parts, vec![(0, 2, 9, 9), (0, 5, 0, 0), (0, 5, 0, 1), (1, 0, 0, 0)]);
}
