//! Progress reporting types for tracing runs.

use vstd::prelude::*;

use crate::config::QualityPreset;

verus! {

/// One completed stage in the tracing pipeline.
#[derive(Debug, Clone, Copy, PartialEq, Eq, Hash, Structural)]
pub enum TraceStage {
    /// The source image has been decoded successfully.
    Loaded,
    /// Preprocessing (normalization / denoising) finished.
    Preprocessed,
    /// Alpha compositing against the configured background finished.
    Composited,
    /// Optional higher-resolution tracing resample finished.
    Resampled,
    /// Color quantization / segmentation finished.
    Quantized,
    /// Optional SVG gradient approximation finished.
    GradientsApproximated,
    /// Contour extraction finished.
    ContoursExtracted,
    /// Despeckling finished.
    Despeckled,
    /// SVG generation finished.
    SvgGenerated,
    /// The full tracing run is complete.
    Completed,
}

/// One progress callback update emitted after a stage completes.
#[derive(Debug, Clone, Copy, PartialEq, Eq)]
pub struct TraceProgressUpdate {
    stage: TraceStage,
    completed_stages: usize,
    total_stages: usize,
}

impl TraceProgressUpdate {
    /// The stage carried by this update.
    pub closed spec fn spec_stage(&self) -> TraceStage {
        self.stage
    }

    /// The number of completed stages carried by this update.
    pub closed spec fn spec_completed_stages(&self) -> usize {
        self.completed_stages
    }

    /// The expected number of stages carried by this update.
    pub closed spec fn spec_total_stages(&self) -> usize {
        self.total_stages
    }

    /// Create a new progress update.
    pub fn new(stage: TraceStage, completed_stages: usize, total_stages: usize) -> (r: Self)
        ensures
            r.spec_stage() == stage,
            r.spec_completed_stages() == completed_stages,
            r.spec_total_stages() == total_stages,
    {
        TraceProgressUpdate { stage, completed_stages, total_stages }
    }

    /// Return the stage that just completed.
    pub fn stage(&self) -> (r: TraceStage)
        ensures
            r == self.spec_stage(),
    {
        self.stage
    }

    /// Return how many stages have completed so far.
    pub fn completed_stages(&self) -> (r: usize)
        ensures
            r == self.spec_completed_stages(),
    {
        self.completed_stages
    }

    /// Return the total number of stages expected for this run.
    pub fn total_stages(&self) -> (r: usize)
        ensures
            r == self.spec_total_stages(),
    {
        self.total_stages
    }
}

/// The number of stages a run reports: eight mandatory stages, plus the
/// resampling stage of the high preset and the optional gradient stage.
pub open spec fn spec_total_stage_count(preset: QualityPreset, gradients: bool) -> usize {
    (8 + (if preset == QualityPreset::High { 1usize } else { 0usize }) + (if gradients {
        1usize
    } else {
        0usize
    })) as usize
}

/// Count the stages that a run with the given preset and gradient setting reports.
pub fn total_stage_count(preset: QualityPreset, enable_svg_gradients: bool) -> (r: usize)
    ensures
        r == spec_total_stage_count(preset, enable_svg_gradients),
{
    let mut total: usize = 8;
    if preset.is_high() {
        total += 1;
    }
    if enable_svg_gradients {
        total += 1;
    }
    total
}

/// Counts completed stages of a run and produces the updates that a progress
/// callback receives.
pub struct ProgressTracker {
    completed_stages: usize,
    total_stages: usize,
}

impl ProgressTracker {
    /// Stages completed so far.
    pub closed spec fn spec_completed(&self) -> usize {
        self.completed_stages
    }

    /// Stages the run is expected to report.
    pub closed spec fn spec_total(&self) -> usize {
        self.total_stages
    }

    /// Start tracking a run with the given preset and gradient setting.
    pub fn new(preset: QualityPreset, enable_svg_gradients: bool) -> (r: Self)
        ensures
            r.spec_completed() == 0,
            r.spec_total() == spec_total_stage_count(preset, enable_svg_gradients),
    {
        ProgressTracker {
            completed_stages: 0,
            total_stages: total_stage_count(preset, enable_svg_gradients),
        }
    }

    /// Record that `stage` completed and return the update to report.
    pub fn advance(&mut self, stage: TraceStage) -> (update: TraceProgressUpdate)
        requires
            old(self).spec_completed() < usize::MAX,
        ensures
            final(self).spec_completed() == old(self).spec_completed() + 1,
            final(self).spec_total() == old(self).spec_total(),
            update.spec_stage() == stage,
            update.spec_completed_stages() == final(self).spec_completed(),
            update.spec_total_stages() == final(self).spec_total(),
    {
        self.completed_stages = self.completed_stages + 1;
        TraceProgressUpdate::new(stage, self.completed_stages, self.total_stages)
    }
}

} // verus!
