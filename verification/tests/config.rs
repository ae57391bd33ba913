use sonicfusion::ieee::number::{Double, Single};
use sonicfusion::{RenderConfig, Result};

fn double(value: f64) -> Double {
    Double { bits: value.to_bits() }
}

fn single(value: f32) -> Single {
    Single { bits: value.to_bits() }
}

fn assert_invalid(result: Result<RenderConfig>, expected_message: &str) {
    let message = match result {
        Ok(_) => panic!("expected an invalid configuration"),
        Err(error) => error.to_string(),
    };

    assert_eq!(message, expected_message);
}

#[test]
fn config_builder_uses_demonstration_defaults() {
    let config = RenderConfig::builder()
        .build()
        .expect("demonstration defaults should remain valid");

    assert_eq!(config.sample_rate_hz(), 48_000);
    assert_eq!(config.frame_count(), 48_000);
    assert_eq!(config.batch_frame_capacity(), 1_024);
    assert_eq!(config.frequency_hz(), double(440.0));
    assert_eq!(config.pulse_width(), double(0.5));
    assert_eq!(config.gain(), single(0.5));
    assert_eq!(config.max_render_seconds(), 60);
}

#[test]
fn config_builder_rejects_zero_sized_render_values() {
    assert_invalid(
        RenderConfig::builder().sample_rate_hz(0).build(),
        "invalid configuration: sample_rate_hz must be greater than 0",
    );
    assert_invalid(
        RenderConfig::builder().frame_count(0).build(),
        "invalid configuration: frame_count must be greater than 0",
    );
    assert_invalid(
        RenderConfig::builder().batch_frame_capacity(0).build(),
        "invalid configuration: batch_frame_capacity must be greater than 0",
    );
    assert_invalid(
        RenderConfig::builder().max_render_seconds(0).build(),
        "invalid configuration: max_render_seconds must be greater than 0",
    );
}

#[test]
fn config_builder_accepts_dc_and_rejects_invalid_frequencies() {
    let dc = RenderConfig::builder()
        .frequency_hz(double(0.0))
        .build()
        .expect("zero frequency is a valid DC signal");
    assert_eq!(dc.frequency_hz(), double(0.0));

    assert_invalid(
        RenderConfig::builder().frequency_hz(double(-1.0)).build(),
        "invalid configuration: frequency_hz must be greater than or equal to 0",
    );
    assert_invalid(
        RenderConfig::builder().frequency_hz(double(f64::NAN)).build(),
        "invalid configuration: frequency_hz must be finite",
    );
    assert_invalid(
        RenderConfig::builder().frequency_hz(double(f64::INFINITY)).build(),
        "invalid configuration: frequency_hz must be finite",
    );
    assert_invalid(
        RenderConfig::builder()
            .sample_rate_hz(8_000)
            .frequency_hz(double(4_000.0))
            .build(),
        "invalid configuration: frequency_hz must be below Nyquist (4000 Hz for sample_rate_hz 8000)",
    );
}

#[test]
fn config_builder_accepts_general_finite_gain_and_rejects_non_finite_gain() {
    for gain in [0.0, -0.5, 2.0] {
        let config = RenderConfig::builder()
            .gain(single(gain))
            .build()
            .expect("finite gain should be valid");
        assert_eq!(config.gain(), single(gain));
    }

    assert_invalid(
        RenderConfig::builder().gain(single(f32::NAN)).build(),
        "invalid configuration: gain must be finite",
    );
    assert_invalid(
        RenderConfig::builder().gain(single(f32::INFINITY)).build(),
        "invalid configuration: gain must be finite",
    );
}

#[test]
fn config_builder_enforces_the_configured_render_duration() {
    let boundary = RenderConfig::builder()
        .frame_count(2_880_000)
        .build()
        .expect("exactly 60 seconds at 48 kHz should be valid");
    assert_eq!(boundary.frame_count(), 2_880_000);

    assert_invalid(
        RenderConfig::builder().frame_count(2_880_001).build(),
        "invalid configuration: frame_count 2880001 exceeds configured maximum 2880000 (48000 Hz × 60 s)",
    );

    let custom_boundary = RenderConfig::builder()
        .sample_rate_hz(8_000)
        .frame_count(16_000)
        .max_render_seconds(2)
        .build()
        .expect("the render limit should be configurable");
    assert_eq!(custom_boundary.frame_count(), 16_000);
}

#[test]
fn config_builder_reports_render_limit_overflow() {
    assert_invalid(
        RenderConfig::builder()
            .sample_rate_hz(u32::MAX)
            .max_render_seconds(u64::MAX)
            .build(),
        "invalid configuration: sample_rate_hz × max_render_seconds overflows frame_count",
    );
}

#[test]
fn builder_validates_pulse_width() {
    for width in [0.0, 0.25, 1.0] {
        let config = RenderConfig::builder().pulse_width(double(width)).build().unwrap();
        assert_eq!(config.pulse_width(), double(width));
    }

    for width in [-0.01, 1.01, f64::NAN, f64::INFINITY] {
        assert_invalid(
            RenderConfig::builder().pulse_width(double(width)).build(),
            "invalid configuration: pulse_width must be finite and between 0 and 1 inclusive",
        );
    }
}

#[test]
fn odd_rates_have_a_fractional_nyquist_frequency() {
    assert_invalid(
        RenderConfig::builder().sample_rate_hz(11).frequency_hz(double(5.5)).build(),
        "invalid configuration: frequency_hz must be below Nyquist (5.5 Hz for sample_rate_hz 11)",
    );
    let below = f64::from_bits(5.5f64.to_bits() - 1);
    assert!(RenderConfig::builder()
        .sample_rate_hz(11)
        .frame_count(11)
        .frequency_hz(double(below))
        .build()
        .is_ok());
    assert!(RenderConfig::builder().sample_rate_hz(u32::MAX).frequency_hz(double(2147483647.4)).build().is_ok());
    assert_invalid(
        RenderConfig::builder().sample_rate_hz(u32::MAX).frequency_hz(double(2147483647.5)).build(),
        "invalid configuration: frequency_hz must be below Nyquist (2147483647.5 Hz for sample_rate_hz 4294967295)",
    );
}

#[test]
fn faults_are_reported_in_a_fixed_order() {
    assert_invalid(
        RenderConfig::builder().sample_rate_hz(0).frame_count(0).gain(single(f32::NAN)).build(),
        "invalid configuration: sample_rate_hz must be greater than 0",
    );
    assert_invalid(
        RenderConfig::builder().pulse_width(double(2.0)).gain(single(f32::NAN)).build(),
        "invalid configuration: pulse_width must be finite and between 0 and 1 inclusive",
    );
}

#[test]
fn negative_zero_is_a_valid_frequency_and_pulse_width() {
    let config = RenderConfig::builder()
        .frequency_hz(double(-0.0))
        .pulse_width(double(-0.0))
        .build()
        .unwrap();
    assert_eq!(config.frequency_hz(), double(-0.0));
}

#[test]
fn default_and_clone_keep_the_settings() {
    let config = RenderConfig::default();
    assert_eq!(config.settings(), RenderConfig::builder().build().unwrap().settings());
    assert_eq!(config.clone().settings(), config.settings());
}

#[test]
fn a_frequency_is_checked_only_where_it_is_given() {
    let config = RenderConfig::builder()
        .sample_rate_hz(8)
        .frame_count(10)
        .batch_frame_capacity(4)
        .build()
        .unwrap();
    assert_eq!(config.sample_rate_hz(), 8);
    assert_eq!(config.frame_count(), 10);
    assert_eq!(config.batch_frame_capacity(), 4);
    assert_eq!(config.frequency_hz(), double(440.0));
    assert_invalid(
        RenderConfig::builder()
            .sample_rate_hz(8)
            .frame_count(10)
            .frequency_hz(double(440.0))
            .build(),
        "invalid configuration: frequency_hz must be below Nyquist (4 Hz for sample_rate_hz 8)",
    );
}
