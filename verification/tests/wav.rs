use std::io::Cursor;
use std::sync::Arc;
use std::time::Duration;

use datafusion::arrow::array::{Float32Array, RecordBatch, UInt64Array};
use sonicfusion::arrow::FrameBatch;
use sonicfusion::ieee::number::Single;
use sonicfusion::output::wav::{
    prepare_wav, wav_error, wav_spec, write_frame_action, SampleFormat, WavRecorder, WavSpec,
};
use sonicfusion::{decode_from_frames, frame_schema, Error, RenderConfig};

fn singles(values: &[f32]) -> Vec<Single> {
    values.iter().map(|value| Single { bits: value.to_bits() }).collect()
}

fn test_config(frame_count: u64) -> RenderConfig {
    RenderConfig::builder()
        .frame_count(frame_count)
        .build()
        .expect("test configuration should be valid")
}

fn hound_spec(spec: WavSpec) -> hound::WavSpec {
    hound::WavSpec {
        channels: spec.channels,
        sample_rate: spec.sample_rate,
        bits_per_sample: spec.bits_per_sample,
        sample_format: match spec.sample_format {
            SampleFormat::Float => hound::SampleFormat::Float,
            SampleFormat::Int => hound::SampleFormat::Int,
        },
    }
}

fn encode(spec: WavSpec, samples: &[Single]) -> Vec<u8> {
    let mut bytes = Cursor::new(Vec::new());
    let mut writer = hound::WavWriter::new(&mut bytes, hound_spec(spec)).unwrap();
    for sample in samples {
        writer.write_sample(f32::from_bits(sample.bits)).unwrap();
    }
    writer.finalize().unwrap();
    bytes.into_inner()
}

fn read_samples(bytes: Vec<u8>) -> Vec<f32> {
    let reader = hound::WavReader::new(Cursor::new(bytes)).expect("WAV should be readable");
    reader.into_samples::<f32>().map(|sample| sample.unwrap()).collect()
}

fn frame_batch(config: &RenderConfig, frames: Vec<u64>, samples: Vec<f32>) -> RecordBatch {
    RecordBatch::try_new(
        frame_schema(config),
        vec![Arc::new(UInt64Array::from(frames)), Arc::new(Float32Array::from(samples))],
    )
    .unwrap()
}

fn record(config: &RenderConfig, batches: Vec<RecordBatch>) -> Result<(Vec<Single>, Duration), Error> {
    let mut recorder = WavRecorder::new(config);
    let mut recorded = Vec::new();
    for (index, batch) in batches.into_iter().enumerate() {
        let elapsed = Duration::from_millis(index as u64 + 1);
        let (next, samples) = recorder.record(&FrameBatch { batch }, elapsed)?;
        recorder = next;
        recorded.extend(samples);
    }
    let stats = recorder.finish()?;
    Ok((recorded, stats.first_decoded_batch))
}

fn assert_invalid_render_contains(error: &Error, expected: &str) {
    match error {
        Error::InvalidRender(message) => {
            assert!(message.contains(expected), "expected {message:?} to contain {expected:?}")
        }
        other => panic!("expected InvalidRender, got {}", other.to_string()),
    }
}

#[test]
fn wav_header_describes_mono_float_audio() {
    let config = test_config(3);
    let samples = singles(&[1.0, 2.0, 3.0]);

    let spec = prepare_wav(&samples, &config).expect("WAV should be accepted");
    let bytes = encode(spec, &samples);
    let reader = hound::WavReader::new(Cursor::new(bytes)).expect("WAV should be readable");

    assert_eq!(reader.spec().channels, 1);
    assert_eq!(reader.spec().sample_rate, config.sample_rate_hz());
    assert_eq!(reader.spec().bits_per_sample, 32);
    assert_eq!(reader.spec().sample_format, hound::SampleFormat::Float);
    assert_eq!(wav_spec(&config), spec);
}

#[test]
fn wav_round_trip_preserves_float_samples_without_normalization() {
    let config = test_config(5);
    let samples = [1.0, 2.0, 3.0, 1.5, -2.0];

    let spec = prepare_wav(&singles(&samples), &config).expect("WAV should be accepted");
    let decoded_samples = read_samples(encode(spec, &singles(&samples)));

    assert_eq!(decoded_samples, samples);
}

#[test]
fn streaming_wav_matches_collected_decoder_for_different_batch_sizes() {
    let config = test_config(11);
    let expected: Vec<f32> = (0..11).map(|frame| frame as f32 * 0.25 - 1.0).collect();
    for batch_size in [1, 3, 4, 11] {
        let batches: Vec<_> = (0..11)
            .step_by(batch_size)
            .map(|start| {
                let end = (start + batch_size).min(11);
                frame_batch(
                    &config,
                    (start..end).map(|v| v as u64).collect(),
                    expected[start..end].to_vec(),
                )
            })
            .collect();
        let wrapped: Vec<_> =
            batches.iter().map(|batch| FrameBatch { batch: batch.clone() }).collect();
        let collected = decode_from_frames(&wrapped, &config).unwrap();
        let (streamed, first) = record(&config, batches).unwrap();
        let recorded = read_samples(encode(wav_spec(&config), &streamed));
        assert_eq!(collected, singles(&expected));
        assert_eq!(singles(&recorded), collected);
        assert_eq!(first, Duration::from_millis(1));
    }
}

#[test]
fn streaming_wav_reads_only_the_sliced_batch_values() {
    let config = test_config(4);
    let batch = frame_batch(
        &config,
        vec![99, 0, 1, 2, 3, 99],
        vec![f32::NAN, 0.25, -0.5, 1.0, -1.0, f32::NAN],
    )
    .slice(1, 4);

    let (recorded, _) = record(&config, vec![batch]).unwrap();

    assert_eq!(recorded, singles(&[0.25, -0.5, 1.0, -1.0]));
}

#[test]
fn an_invalid_stream_ends_the_recording() {
    let config = test_config(4);
    for (input, expected_error) in [
        (vec![], "first missing frame is 0"),
        (
            vec![frame_batch(&config, vec![0, 1, 3, 4], vec![0.0; 4])],
            "expected frame 2, got 3",
        ),
        (
            vec![frame_batch(&config, vec![0, 1, 1, 3], vec![0.0; 4])],
            "expected frame 2, got 1",
        ),
        (
            vec![frame_batch(&config, vec![0, 1, 2, 3], vec![0.0, 0.0, f32::NAN, 0.0])],
            "non-finite sample at frame 2",
        ),
        (
            vec![frame_batch(&config, vec![0, 1], vec![0.0; 2])],
            "first missing frame is 2",
        ),
    ] {
        let error = record(&config, input).unwrap_err();
        assert_invalid_render_contains(&error, expected_error);
    }
}

#[test]
fn the_first_samples_set_the_time() {
    let config = test_config(2);
    let (_, first) = record(
        &config,
        vec![
            frame_batch(&config, vec![], vec![]),
            frame_batch(&config, vec![0], vec![0.5]),
            frame_batch(&config, vec![1], vec![0.5]),
        ],
    )
    .unwrap();
    assert_eq!(first, Duration::from_millis(2));
}

#[test]
fn invalid_sample_count_fails_before_creating_the_destination() {
    let config = test_config(3);

    let error = prepare_wav(&singles(&[1.0, 2.0]), &config)
        .expect_err("wrong sample count should be rejected");

    assert_invalid_render_contains(&error, "expected 3, got 2");
    assert_eq!(
        error.to_string(),
        "invalid render: sample count does not match configured frame count: expected 3, got 2"
    );
}

#[test]
fn non_finite_samples_fail_before_creating_the_destination() {
    let config = test_config(3);

    for (name, sample) in [
        ("NaN", f32::NAN),
        ("inf", f32::INFINITY),
        ("-inf", f32::NEG_INFINITY),
    ] {
        let error = prepare_wav(&singles(&[0.0, sample, 1.0]), &config)
            .expect_err("non-finite sample should be rejected");

        assert_invalid_render_contains(&error, "non-finite sample at frame 1");
        assert_eq!(
            error.to_string(),
            format!("invalid render: cannot write non-finite sample at frame 1: {name}")
        );
    }
}

#[test]
fn wav_errors_name_the_action_the_path_and_the_source() {
    let error = wav_error(write_frame_action(12), "/tmp/a.wav".to_string(), "full".to_string());
    assert_eq!(error.to_string(), "failed to write frame 12 to WAV at /tmp/a.wav: full");
    let error = Error::WaveformError { path: "a.svg".to_string(), source: "gone".to_string() };
    assert_eq!(error.to_string(), "failed to write waveform SVG at a.svg: gone");
    assert_eq!(
        Error::RenderStream("upstream".to_string()).to_string(),
        "render stream failed: upstream"
    );
}
