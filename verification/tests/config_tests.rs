use vectize::config::{
    parse_hex_color, resolved_background_color, should_apply_high_detail_resolution_scaling,
    should_raise_high_detail_min_region_area, tracing_scale, DetailSettings, QualityPreset,
};
use vectize::error::VectizeError;
use vectize::progress::{total_stage_count, ProgressTracker, TraceProgressUpdate, TraceStage};

fn high() -> DetailSettings {
    DetailSettings {
        quality_preset: QualityPreset::High,
        enable_preprocessing: true,
        enable_denoising: true,
        color_count: 64,
    }
}

#[test]
fn quality_preset_parse() {
    assert_eq!(QualityPreset::parse("fast"), Some(QualityPreset::Fast));
    assert_eq!(
        QualityPreset::parse("balanced"),
        Some(QualityPreset::Balanced)
    );
    assert_eq!(QualityPreset::parse("high"), Some(QualityPreset::High));
    assert_eq!(QualityPreset::parse("FAST"), Some(QualityPreset::Fast));
    assert_eq!(QualityPreset::parse("unknown"), None);
}

#[test]
fn quality_preset_display() {
    assert_eq!(QualityPreset::Fast.to_string(), "fast");
    assert_eq!(QualityPreset::Balanced.to_string(), "balanced");
    assert_eq!(QualityPreset::High.to_string(), "high");
}

#[test]
fn quality_preset_names_parse_back_in_any_case() {
    for preset in [QualityPreset::Fast, QualityPreset::Balanced, QualityPreset::High] {
        assert_eq!(QualityPreset::parse(&preset.to_string()), Some(preset));
        assert_eq!(QualityPreset::parse(&preset.to_string().to_uppercase()), Some(preset));
    }
    assert_eq!(QualityPreset::parse("HiGh"), Some(QualityPreset::High));
    assert_eq!(QualityPreset::parse(" high"), None);
    assert_eq!(QualityPreset::parse(""), None);
}

#[test]
fn resolved_background_color_defaults_to_white() {
    assert_eq!(resolved_background_color(None), (255, 255, 255));
}

#[test]
fn resolved_background_color_prefers_configured_value() {
    assert_eq!(
        resolved_background_color(Some((0x12, 0x34, 0x56))),
        (0x12, 0x34, 0x56)
    );
}

#[test]
fn parse_hex_color_accepts_prefixed_and_unprefixed_values() {
    assert_eq!(parse_hex_color("#123456").unwrap(), (0x12, 0x34, 0x56));
    assert_eq!(parse_hex_color("abcdef").unwrap(), (0xab, 0xcd, 0xef));
}

#[test]
fn parse_hex_color_rejects_invalid_values() {
    assert!(parse_hex_color("#12345").is_err());
    assert!(parse_hex_color("gg0000").is_err());
}

#[test]
fn parse_hex_color_trims_and_reports_errors() {
    assert_eq!(parse_hex_color("  #A0b1C2\n"), Ok((0xa0, 0xb1, 0xc2)));
    assert_eq!(
        parse_hex_color("+f+f+f"),
        Err("Invalid hex color '+f+f+f'".to_string())
    );
    assert!(parse_hex_color("+1+2+3").is_err());
    assert_eq!(
        parse_hex_color("#12345"),
        Err("Invalid hex color '#12345': expected 6 hex digits (e.g. \"#ff0000\")".to_string())
    );
    assert_eq!(
        parse_hex_color("gg0000"),
        Err("Invalid hex color 'gg0000'".to_string())
    );
    assert!(parse_hex_color("##12345").is_err());
}

#[test]
fn tracing_scale_uses_dense_grid_for_high_preset() {
    assert_eq!(tracing_scale(QualityPreset::Balanced), 1);
    assert_eq!(tracing_scale(QualityPreset::High), 2);
    assert_eq!(tracing_scale(QualityPreset::Fast), 1);
}

#[test]
fn adaptive_high_detail_scaling_skips_sparse_or_small_traces() {
    let high = high();

    assert!(should_apply_high_detail_resolution_scaling(
        &high, 24, 1_536, 1_536, 20_000
    ));
    assert!(!should_apply_high_detail_resolution_scaling(
        &high, 24, 512, 512, 20_000
    ));
    assert!(!should_apply_high_detail_resolution_scaling(
        &high, 24, 1_536, 1_536, 500
    ));
}

#[test]
fn high_detail_min_region_area_raise_needs_dense_default_high_traces() {
    let high = high();
    assert!(should_raise_high_detail_min_region_area(&high, true, 24, 1_536, 1_536, 8_740));
    assert!(!should_raise_high_detail_min_region_area(&high, false, 24, 1_536, 1_536, 8_740));
    assert!(!should_raise_high_detail_min_region_area(&high, true, 8, 1_536, 1_536, 8_740));
    assert!(!should_raise_high_detail_min_region_area(&high, true, 24, 512, 512, 200));
    let balanced = DetailSettings {
        quality_preset: QualityPreset::Balanced,
        enable_preprocessing: true,
        enable_denoising: false,
        color_count: 16,
    };
    assert!(!should_raise_high_detail_min_region_area(&balanced, true, 24, 1_536, 1_536, 8_740));
}

#[test]
fn total_stage_count_includes_optional_stages() {
    assert_eq!(total_stage_count(QualityPreset::Balanced, false), 8);
    assert_eq!(total_stage_count(QualityPreset::High, true), 10);
    assert_eq!(total_stage_count(QualityPreset::High, false), 9);
}

#[test]
fn progress_tracker_counts_every_stage() {
    let mut tracker = ProgressTracker::new(QualityPreset::Balanced, false);
    let first = tracker.advance(TraceStage::Loaded);
    assert_eq!(first.stage(), TraceStage::Loaded);
    assert_eq!(first.completed_stages(), 1);
    assert_eq!(first.total_stages(), 8);
    let second = tracker.advance(TraceStage::Preprocessed);
    assert_eq!(second.completed_stages(), 2);
    assert_eq!(second.total_stages(), 8);
    let update = TraceProgressUpdate::new(TraceStage::Completed, 8, 8);
    assert_eq!(update.stage(), TraceStage::Completed);
    assert_eq!(update.completed_stages(), 8);
}

#[test]
fn error_display_messages() {
    let e = VectizeError::UnsupportedFormat("bmp".to_string());
    let msg = e.message();
    assert!(msg.contains("bmp"));

    let e = VectizeError::InvalidConfig("bad".to_string());
    let msg = e.message();
    assert!(msg.contains("bad"));

    let e = VectizeError::Pipeline("failed".to_string());
    let msg = e.message();
    assert!(msg.contains("failed"));

    let e = VectizeError::OutputExists("out.svg".to_string());
    let msg = e.message();
    assert!(msg.contains("out.svg"));
}

#[test]
fn error_messages_carry_their_prefix() {
    assert_eq!(
        VectizeError::InvalidConfig("bad".to_string()).message(),
        "Invalid configuration: bad"
    );
    assert_eq!(VectizeError::Io("gone".to_string()).message(), "I/O error: gone");
}
