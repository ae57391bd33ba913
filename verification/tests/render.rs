use std::sync::Arc;

use datafusion::arrow::array::{Float32Array, Float64Array, RecordBatch, UInt64Array};
use datafusion::arrow::datatypes::{DataType, Field, Schema, SchemaRef};
use sonicfusion::arrow::FrameBatch;
use sonicfusion::ieee::number::{Double, Single};
use sonicfusion::layout::frame_schema_val;
use sonicfusion::render::decode_rows;
use sonicfusion::{decode_from_frames, frame_schema, Error, FrameDecoder, RenderConfig};

fn test_config(frame_count: u64) -> RenderConfig {
    RenderConfig::builder()
        .sample_rate_hz(8)
        .frame_count(frame_count)
        .batch_frame_capacity(4)
        .frequency_hz(Double { bits: 2.0f64.to_bits() })
        .build()
        .expect("test configuration should be valid")
}

fn frame_batch(config: &RenderConfig, frames: &[u64], samples: &[f32]) -> FrameBatch {
    assert_eq!(frames.len(), samples.len());
    let batch = RecordBatch::try_new(
        frame_schema(config),
        vec![
            Arc::new(UInt64Array::from_iter_values(frames.iter().copied())),
            Arc::new(Float32Array::from_iter_values(samples.iter().copied())),
        ],
    )
    .expect("test frame batch should be valid");
    FrameBatch { batch }
}

fn assert_invalid_render_contains(error: &Error, expected: &str) {
    match error {
        Error::InvalidRender(message) => {
            assert!(message.contains(expected), "expected {message:?} to contain {expected:?}")
        }
        other => panic!("expected InvalidRender, got {}", other.to_string()),
    }
}

fn floats(samples: Vec<Single>) -> Vec<f32> {
    samples.into_iter().map(|sample| f32::from_bits(sample.bits)).collect()
}

#[test]
fn test_frame_schema_contract() {
    let config = RenderConfig::builder()
        .sample_rate_hz(96_000)
        .build()
        .expect("test configuration should be valid");
    let schema = frame_schema(&config);

    assert_eq!(schema.fields().len(), 2);
    assert_eq!(schema.field(0).name(), "frame");
    assert_eq!(schema.field(0).data_type(), &DataType::UInt64);
    assert!(!schema.field(0).is_nullable());
    assert_eq!(schema.field(1).name(), "sample");
    assert_eq!(schema.field(1).data_type(), &DataType::Float32);
    assert!(!schema.field(1).is_nullable());

    assert_eq!(schema.metadata().len(), 3);
    assert_eq!(
        schema.metadata().get("audio.sample_rate_hz").map(String::as_str),
        Some("96000")
    );
    assert_eq!(schema.metadata().get("audio.channels").map(String::as_str), Some("1"));
    assert_eq!(schema.metadata().get("audio.layout").map(String::as_str), Some("frame"));
}

#[test]
fn empty_render_inputs_are_rejected() {
    let config = test_config(3);

    let no_batches = decode_from_frames(&[], &config)
        .expect_err("a render with no batches should be rejected");
    assert_invalid_render_contains(&no_batches, "no RecordBatches");

    let empty_batch = FrameBatch { batch: RecordBatch::new_empty(frame_schema(&config)) };
    let no_samples = decode_from_frames(&[empty_batch], &config)
        .expect_err("a render with no decoded samples should be rejected");
    assert_invalid_render_contains(&no_samples, "first missing frame is 0");
}

#[test]
fn duplicate_gap_and_out_of_order_frames_are_rejected_with_context() {
    let config = test_config(4);
    let cases = [
        (vec![0, 1, 1, 3], "expected frame 2, got 1"),
        (vec![0, 1, 3, 4], "expected frame 2, got 3"),
        (vec![0, 1, 2, 1], "expected frame 3, got 1"),
    ];

    for (frames, expected_message) in cases {
        let batch = frame_batch(&config, &frames, &[0.0; 4]);
        let error = decode_from_frames(&[batch], &config)
            .expect_err("discontinuous frames should be rejected");

        assert_invalid_render_contains(&error, expected_message);
        assert_invalid_render_contains(&error, "batch 0 row");
    }
}

#[test]
fn frames_beyond_the_configured_range_are_rejected() {
    let config = test_config(3);
    let batch = frame_batch(&config, &[0, 1, 2, 3], &[0.0; 4]);

    let error = decode_from_frames(&[batch], &config).expect_err("extra frames should be rejected");

    assert_invalid_render_contains(&error, "unexpected extra frame in batch 0 row 3");
}

#[test]
fn wrong_or_noncanonical_metadata_is_rejected() {
    let config = test_config(3);
    let expected = frame_schema_val(&config);

    let mut wrong_layout = expected.metadata().clone();
    wrong_layout.insert("audio.layout".to_string(), "block".to_string());

    let mut missing_channels = expected.metadata().clone();
    missing_channels.remove("audio.channels");

    let mut noncanonical_rate = expected.metadata().clone();
    noncanonical_rate.insert("audio.sample_rate_hz".to_string(), "08".to_string());

    for metadata in [wrong_layout, missing_channels, noncanonical_rate] {
        let schema = SchemaRef::new(expected.clone().with_metadata(metadata));
        let batch = RecordBatch::try_new(
            schema,
            vec![
                Arc::new(UInt64Array::from_iter_values(0..3)),
                Arc::new(Float32Array::from_iter_values([0.0; 3])),
            ],
        )
        .expect("test batch should be structurally valid");

        let error = decode_from_frames(&[FrameBatch { batch }], &config)
            .expect_err("incorrect metadata should be rejected");
        assert_invalid_render_contains(&error, "schema mismatch in batch 0");
    }
}

#[test]
fn wrong_type_or_nullability_is_rejected() {
    let config = test_config(3);
    let metadata = frame_schema(&config).metadata().clone();

    let wrong_type_schema = SchemaRef::new(Schema::new_with_metadata(
        vec![
            Field::new("frame", DataType::UInt64, false),
            Field::new("sample", DataType::Float64, false),
        ],
        metadata.clone(),
    ));
    let wrong_type_batch = RecordBatch::try_new(
        wrong_type_schema,
        vec![
            Arc::new(UInt64Array::from_iter_values(0..3)),
            Arc::new(Float64Array::from_iter_values([0.0; 3])),
        ],
    )
    .expect("wrong-type test batch should be structurally valid");

    let nullable_schema = SchemaRef::new(Schema::new_with_metadata(
        vec![
            Field::new("frame", DataType::UInt64, false),
            Field::new("sample", DataType::Float32, true),
        ],
        metadata,
    ));
    let nullable_batch = RecordBatch::try_new(
        nullable_schema,
        vec![
            Arc::new(UInt64Array::from_iter_values(0..3)),
            Arc::new(Float32Array::from_iter_values([0.0; 3])),
        ],
    )
    .expect("nullable test batch should be structurally valid");

    for batch in [wrong_type_batch, nullable_batch] {
        let error = decode_from_frames(&[FrameBatch { batch }], &config)
            .expect_err("wrong schema shape should be rejected");
        assert_invalid_render_contains(&error, "schema mismatch in batch 0");
    }
}

#[test]
fn non_finite_samples_are_rejected_at_their_absolute_frame() {
    let config = test_config(3);

    for sample in [f32::NAN, f32::INFINITY, f32::NEG_INFINITY] {
        let batch = frame_batch(&config, &[0, 1, 2], &[0.0, sample, 1.0]);
        let error = decode_from_frames(&[batch], &config)
            .expect_err("non-finite samples should be rejected");

        assert_invalid_render_contains(&error, "non-finite sample at frame 1");
        assert_invalid_render_contains(&error, "batch 0 row 1");
    }
}

#[test]
fn faults_read_the_same_in_every_word() {
    let config = test_config(3);
    let message = |frames: &[u64], samples: &[f32]| {
        let first = frame_batch(&config, &[0], &[0.5]);
        let second = frame_batch(&config, frames, samples);
        decode_from_frames(&[first, second], &config).unwrap_err().to_string()
    };
    assert_eq!(
        message(&[1, 2, 3], &[0.0; 3]),
        "invalid render: unexpected extra frame in batch 1 row 2; expected coverage 0..3"
    );
    assert_eq!(
        message(&[2], &[0.0]),
        "invalid render: discontinuous frame sequence in batch 1 row 0: expected frame 1, got 2"
    );
    assert_eq!(
        message(&[1], &[f32::NAN]),
        "invalid render: non-finite sample at frame 1 in batch 1 row 0"
    );
    assert_eq!(
        message(&[1], &[0.0]),
        "invalid render: frame render ended early: first missing frame is 2; expected coverage 0..3"
    );
    assert_eq!(
        decode_from_frames(&[], &config).unwrap_err().to_string(),
        "invalid render: frame render contained no RecordBatches; first missing frame is 0"
    );
}

#[test]
fn null_cells_are_rejected() {
    let sample = Some(Single { bits: 0 });
    let frames = vec![Some(5), None];
    let message = decode_rows(9, 5, 2, &frames, &vec![sample, sample]).unwrap_err().to_string();
    assert_eq!(message, "invalid render: null frame index in batch 2 row 1");
    let frames = vec![Some(5), Some(6)];
    let message = decode_rows(9, 5, 2, &frames, &vec![sample, None]).unwrap_err().to_string();
    assert_eq!(message, "invalid render: null sample at frame 6 in batch 2 row 1");
    assert_eq!(decode_rows(9, 5, 2, &frames, &vec![sample, sample]).unwrap().len(), 2);
}

#[test]
fn samples_outside_the_nominal_range_are_decoded() {
    let config = test_config(3);
    let batch = frame_batch(&config, &[0, 1, 2], &[1.5, -2.0, f32::MAX]);
    assert_eq!(floats(decode_from_frames(&[batch], &config).unwrap()), [1.5, -2.0, f32::MAX]);
}

#[test]
fn a_decoder_takes_batches_one_by_one_and_stays_where_it_was_after_a_refusal() {
    let config = test_config(4);
    let mut decoder = FrameDecoder::new(&config);
    assert_eq!(
        floats(decoder.decode_batch(&frame_batch(&config, &[0, 1], &[0.1, 0.2])).unwrap()),
        [0.1, 0.2]
    );
    let refused = decoder.decode_batch(&frame_batch(&config, &[3], &[0.3])).unwrap_err();
    assert_invalid_render_contains(&refused, "batch 1 row 0: expected frame 2, got 3");
    assert_invalid_render_contains(&decoder.finish().unwrap_err(), "first missing frame is 2");
    assert!(decoder.decode_batch(&frame_batch(&config, &[], &[])).unwrap().is_empty());
    assert_eq!(
        floats(decoder.decode_batch(&frame_batch(&config, &[2, 3], &[0.3, 0.4])).unwrap()),
        [0.3, 0.4]
    );
    assert!(decoder.finish().is_ok());
}

#[test]
fn how_a_render_is_cut_does_not_matter() {
    let config = test_config(4);
    let frames = [0, 1, 2, 3];
    let samples = [0.25, -0.5, 1.0, -1.0];
    for cut in 0..=4 {
        let batches = [
            frame_batch(&config, &frames[..cut], &samples[..cut]),
            frame_batch(&config, &frames[cut..], &samples[cut..]),
        ];
        assert_eq!(floats(decode_from_frames(&batches, &config).unwrap()), samples);
    }
}
