use sonicfusion::dsp::{sine_phase_at_frame, square_at_frame};
use sonicfusion::ieee::number::Double;

fn double(value: f64) -> Double {
    Double { bits: value.to_bits() }
}

fn sine_at_frame(frame: u64, sample_rate_hz: u32, frequency_hz: f64) -> f32 {
    let phase = sine_phase_at_frame(frame, sample_rate_hz, double(frequency_hz));
    f64::from_bits(phase.bits).sin() as f32
}

fn square(frame: u64, sample_rate_hz: u32, frequency_hz: f64, pulse_width: f64) -> f32 {
    let sample =
        square_at_frame(frame, sample_rate_hz, double(frequency_hz), double(pulse_width));
    f32::from_bits(sample.bits)
}

fn approximately_eq(a: f32, b: f32) -> bool {
    let epsilon = 1e-6;
    (a - b).abs() < epsilon
}

#[test]
fn test_sine_at_frame_returns_correct_sine_values() {
    for (i, &expected_sine) in [0.0_f32, 1., 0., -1., 0.].iter().enumerate() {
        let frame = i as u64;

        assert!(approximately_eq(sine_at_frame(frame, 8, 2.0), expected_sine));
    }
}

#[test]
fn test_sine_at_frame_returns_0_for_0_frequency() {
    let sample_rate_hz = 44100;
    let frequency_hz = 0.0;

    for i in 0..10 {
        let frame = i as u64;

        assert!(approximately_eq(sine_at_frame(frame, sample_rate_hz, frequency_hz), 0.0));
    }
}

#[test]
fn square_wave_respects_frequency_and_pulse_width() {
    let samples = (0..12).map(|frame| square(frame, 8, 2.0, 0.5)).collect::<Vec<_>>();
    assert_eq!(
        samples,
        [1.0, 1.0, -1.0, -1.0, 1.0, 1.0, -1.0, -1.0, 1.0, 1.0, -1.0, -1.0]
    );

    let narrow = (0..8).map(|frame| square(frame, 8, 1.0, 0.25)).collect::<Vec<_>>();
    assert_eq!(narrow, [1.0, 1.0, -1.0, -1.0, -1.0, -1.0, -1.0, -1.0]);
}

#[test]
fn square_wave_handles_dc_and_pulse_width_limits() {
    for frame in [0, 1, 10, 1_000] {
        assert_eq!(square(frame, 8, 0.0, 0.5), 1.0);
        assert_eq!(square(frame, 8, 1.0, 0.0), -1.0);
        assert_eq!(square(frame, 8, 1.0, 1.0), 1.0);
    }
}

#[test]
fn square_wave_holds_its_phase_for_a_negative_zero_frequency() {
    for frame in [0, 7, u64::MAX] {
        assert_eq!(square(frame, 48_000, -0.0, 0.25), 1.0);
    }
}
