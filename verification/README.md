# vectize

Raster-to-vector image tracing: bitmap images (PNG, JPEG, WebP and other
common formats) become SVG documents.

## Layout

- `src/` is the verified library. Every function carries a contract that
  Verus proves: preprocessing (edge-aware blur, resampling), palette
  segmentation (color budgets, label assignment, anti-aliasing fringe cleanup,
  bridge-label collapse, tiny-island cleanup, palette compaction, the
  flat-art re-fit), grid-edge contour extraction, region path planning
  (background suppression and contour grouping), configuration parsing,
  progress bookkeeping and the result types.
  - `segment.rs`, `cleanup.rs`, `components.rs`, `quantize.rs`: segmentation.
  - `contour.rs`: contour tracing and contour statistics.
  - `regions.rs`: which contours form each SVG path.
  - `preprocess.rs`, `loader.rs`: image preparation and decoding.
  - `config.rs`, `progress.rs`, `result.rs`, `error.rs`, `sort.rs`.
- `app/` is the `trace` command-line program. It holds the file and console
  I/O, and the floating-point stages (perceptual palette fitting, alpha
  blending, gradients, smoothing, curve fitting, SVG serialization), and calls
  the library for everything else.
- `tests/` exercises the library on concrete inputs.

Perceptual color distances are floating point; the library takes them as a
comparison oracle (`no_farther`, which must answer the same question the
same way) and the palette fit as a function argument (which must stay within
the budget), and its contracts are stated over whatever these answer.
