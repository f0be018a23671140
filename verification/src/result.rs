//! Public tracing result types.

use vstd::prelude::*;

use crate::segment::PaletteColor;

verus! {

/// Summary information about one traced color region.
#[derive(Debug, Clone, PartialEq, Eq)]
pub struct TracedRegionSummary {
    color: PaletteColor,
    contour_count: usize,
    hole_count: usize,
    total_points: usize,
}

impl TracedRegionSummary {
    /// The palette color of the region.
    pub closed spec fn spec_color(&self) -> PaletteColor {
        self.color
    }

    /// The number of contours of the region.
    pub closed spec fn spec_contour_count(&self) -> usize {
        self.contour_count
    }

    /// The number of hole contours of the region.
    pub closed spec fn spec_hole_count(&self) -> usize {
        self.hole_count
    }

    /// The number of traced points of the region.
    pub closed spec fn spec_total_points(&self) -> usize {
        self.total_points
    }

    /// Create a new region summary.
    pub fn new(color: PaletteColor, contour_count: usize, hole_count: usize, total_points: usize) -> (r: Self)
        ensures
            r.spec_color() == color,
            r.spec_contour_count() == contour_count,
            r.spec_hole_count() == hole_count,
            r.spec_total_points() == total_points,
    {
        TracedRegionSummary { color, contour_count, hole_count, total_points }
    }

    /// Return the palette color assigned to this region.
    pub fn color(&self) -> (r: PaletteColor)
        ensures
            r == self.spec_color(),
    {
        self.color
    }

    /// Return the number of contours in this region.
    pub fn contour_count(&self) -> (r: usize)
        ensures
            r == self.spec_contour_count(),
    {
        self.contour_count
    }

    /// Return the number of interior hole contours in this region.
    pub fn hole_count(&self) -> (r: usize)
        ensures
            r == self.spec_hole_count(),
    {
        self.hole_count
    }

    /// Return the total traced point count across all contours.
    pub fn total_points(&self) -> (r: usize)
        ensures
            r == self.spec_total_points(),
    {
        self.total_points
    }
}

/// Optional debug-oriented information captured during tracing.
#[derive(Debug, Clone, PartialEq, Eq)]
pub struct TraceDebugInfo {
    palette: Vec<PaletteColor>,
    regions: Vec<TracedRegionSummary>,
}

impl TraceDebugInfo {
    /// The quantized palette.
    pub closed spec fn spec_palette(&self) -> Seq<PaletteColor> {
        self.palette@
    }

    /// The region summaries.
    pub closed spec fn spec_regions(&self) -> Seq<TracedRegionSummary> {
        self.regions@
    }

    /// Create a new debug info object.
    pub fn new(palette: Vec<PaletteColor>, regions: Vec<TracedRegionSummary>) -> (r: Self)
        ensures
            r.spec_palette() == palette@,
            r.spec_regions() == regions@,
    {
        TraceDebugInfo { palette, regions }
    }

    /// Return the quantized palette used during tracing.
    pub fn palette(&self) -> (r: &[PaletteColor])
        ensures
            r@ == self.spec_palette(),
    {
        self.palette.as_slice()
    }

    /// Return summaries for the traced color regions.
    pub fn regions(&self) -> (r: &[TracedRegionSummary])
        ensures
            r@ == self.spec_regions(),
    {
        self.regions.as_slice()
    }
}

/// Rich tracing result containing the SVG plus optional inspection data.
#[derive(Debug, Clone, PartialEq, Eq)]
pub struct TracingResult {
    svg: String,
    width: u32,
    height: u32,
    debug: TraceDebugInfo,
}

impl TracingResult {
    /// The SVG markup.
    pub closed spec fn spec_svg(&self) -> Seq<char> {
        self.svg@
    }

    /// The traced image width.
    pub closed spec fn spec_width(&self) -> u32 {
        self.width
    }

    /// The traced image height.
    pub closed spec fn spec_height(&self) -> u32 {
        self.height
    }

    /// The debug information.
    pub closed spec fn spec_debug(&self) -> TraceDebugInfo {
        self.debug
    }

    /// Create a new tracing result.
    pub fn new(svg: String, width: u32, height: u32, debug: TraceDebugInfo) -> (r: Self)
        ensures
            r.spec_svg() == svg@,
            r.spec_width() == width,
            r.spec_height() == height,
            r.spec_debug() == debug,
    {
        TracingResult { svg, width, height, debug }
    }

    /// Return the SVG markup.
    pub fn svg(&self) -> (r: &str)
        ensures
            r@ == self.spec_svg(),
    {
        self.svg.as_str()
    }

    /// Consume the result and return the SVG markup.
    pub fn into_svg(self) -> (r: String)
        ensures
            r@ == self.spec_svg(),
    {
        self.svg
    }

    /// Return the traced image width.
    pub fn width(&self) -> (r: u32)
        ensures
            r == self.spec_width(),
    {
        self.width
    }

    /// Return the traced image height.
    pub fn height(&self) -> (r: u32)
        ensures
            r == self.spec_height(),
    {
        self.height
    }

    /// Return debug-oriented tracing information.
    pub fn debug(&self) -> (r: &TraceDebugInfo)
        ensures
            *r == self.spec_debug(),
    {
        &self.debug
    }
}

} // verus!
