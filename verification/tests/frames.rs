use std::sync::Arc;

use datafusion::arrow::array::{Array, Float32Array, RecordBatch, UInt64Array};
use datafusion::arrow::datatypes::DataType;
use sonicfusion::arrow::FrameBatch;
use sonicfusion::decode_from_frames;
use sonicfusion::dsl::build_plan;
use sonicfusion::dsp::sine_phase_at_frame;
use sonicfusion::frame_schema;
use sonicfusion::ieee::number::{Double, Single};
use sonicfusion::physical::frame::display::DisplayFormat;
use sonicfusion::physical::frame::mix::cursor::FrameMergeCursor;
use sonicfusion::physical::frame::mix::{mix, MixAction};
use sonicfusion::physical::frame::node::{
    validate_frequency, validate_sample, Emission, Extent, NodeError, Properties,
};
use sonicfusion::physical::frame::plan::FrameLimit;
use sonicfusion::physical::frame::{
    FrameGainExec, FrameLowPassFilterExec, FrameMixExec, FramePlan, FrameSineOscExec,
    FrameSquareOscExec, Plan,
};
use sonicfusion::RenderConfig;

type Stream = Box<dyn FnMut() -> Result<Option<FrameBatch>, NodeError>>;

fn double(value: f64) -> Double {
    Double { bits: value.to_bits() }
}

fn single(value: f32) -> Single {
    Single { bits: value.to_bits() }
}

fn singles(values: &[f32]) -> Vec<Single> {
    values.iter().map(|value| single(*value)).collect()
}

fn float(sample: Single) -> f32 {
    f32::from_bits(sample.bits)
}

/// Runs a graph. Each source of another library hands out the next of `sources`.
fn open(plan: &Arc<Plan>, sources: &mut Vec<Vec<RecordBatch>>) -> Stream {
    let shared = Arc::clone(plan);
    match plan.as_ref() {
        Plan::Source(_) => {
            let mut batches = sources.remove(0).into_iter();
            Box::new(move || Ok(batches.next().map(|batch| FrameBatch { batch })))
        }
        Plan::Sine(node) => {
            let mut run = node.execute(0).unwrap();
            Box::new(move || {
                let sines = run
                    .next_phases()?
                    .into_iter()
                    .map(|phase| double(f64::from_bits(phase.bits).sin()))
                    .collect::<Vec<_>>();
                run.next_batch(&sines).map(Some)
            })
        }
        Plan::Square(node) => {
            let mut run = node.execute(0).unwrap();
            Box::new(move || run.next_batch().map(Some))
        }
        Plan::Gain(node) => {
            let mut input = open(node.input(), sources);
            Box::new(move || match (input()?, shared.as_ref()) {
                (Some(batch), Plan::Gain(node)) => node.apply(&batch).map(Some),
                _ => Ok(None),
            })
        }
        Plan::LowPass(node) => {
            let mut input = open(node.input(), sources);
            let exponent = f64::from_bits(node.exponent().bits);
            let decay = exponent.exp();
            let mut run = node.execute(double(-exponent.exp_m1()), double(decay));
            Box::new(move || match input()? {
                None => Ok(None),
                Some(batch) => {
                    let rows = run.inspect(&batch)?;
                    let powers = rows
                        .elapsed
                        .iter()
                        .map(|elapsed| double(decay.powf(*elapsed as f64)))
                        .collect::<Vec<_>>();
                    run.apply(rows, &powers).map(Some)
                }
            })
        }
        Plan::Mix(node) => {
            let mut inputs =
                node.inputs().iter().map(|input| open(input, sources)).collect::<Vec<_>>();
            let mut run = node.execute(0).unwrap();
            Box::new(move || loop {
                match run.advance()? {
                    MixAction::Emit(batch) => return Ok(Some(batch)),
                    MixAction::Done => return Ok(None),
                    MixAction::Load => {
                        for index in 0..run.input_count() {
                            while run.input_needs_load(index) {
                                match inputs[index]()? {
                                    Some(batch) => run.load(index, &batch),
                                    None => run.end(index),
                                }
                            }
                        }
                    }
                }
            })
        }
        Plan::Limit(node) => {
            let mut left = node.frames();
            let mut input = open(node.input(), sources);
            Box::new(move || {
                if left == 0 {
                    return Ok(None);
                }
                match input()? {
                    None => Ok(None),
                    Some(batch) => {
                        let rows = batch.batch.num_rows().min(left);
                        left -= rows;
                        Ok(Some(FrameBatch { batch: batch.batch.slice(0, rows) }))
                    }
                }
            })
        }
    }
}

fn collect_with(
    plan: &Arc<Plan>,
    mut sources: Vec<Vec<RecordBatch>>,
) -> Result<Vec<FrameBatch>, NodeError> {
    let mut stream = open(plan, &mut sources);
    let mut batches = Vec::new();
    while let Some(batch) = stream()? {
        batches.push(batch);
    }
    Ok(batches)
}

fn collect(plan: &Arc<Plan>) -> Result<Vec<FrameBatch>, NodeError> {
    collect_with(plan, Vec::new())
}

fn limit(plan: Arc<Plan>, frames: usize) -> Arc<Plan> {
    Arc::new(Plan::Limit(FrameLimit::new(plan, frames)))
}

fn sine(config: &RenderConfig, frequency: f64) -> Arc<Plan> {
    Arc::new(Plan::Sine(FrameSineOscExec::try_new(config, double(frequency)).unwrap()))
}

fn memory(config: &RenderConfig, partitions: usize) -> Arc<Plan> {
    Arc::new(Plan::Source(Properties {
        schema: frame_schema(config),
        partitions,
        emission: Emission::Incremental,
        extent: Extent::Bounded,
        frame_ordered: false,
    }))
}

fn record(config: &RenderConfig, frames: Vec<u64>, samples: Vec<f32>) -> RecordBatch {
    RecordBatch::try_new(
        frame_schema(config),
        vec![Arc::new(UInt64Array::from(frames)), Arc::new(Float32Array::from(samples))],
    )
    .unwrap()
}

fn row_counts(batches: &[FrameBatch]) -> Vec<usize> {
    batches.iter().map(|batch| batch.batch.num_rows()).collect()
}

fn frames_of(batch: &FrameBatch) -> Vec<u64> {
    batch
        .batch
        .column(0)
        .as_any()
        .downcast_ref::<UInt64Array>()
        .expect("frame column 0 expected to be u64")
        .values()
        .to_vec()
}

fn samples_of(batch: &FrameBatch) -> Vec<f32> {
    batch
        .batch
        .column(1)
        .as_any()
        .downcast_ref::<Float32Array>()
        .expect("sample column 1 expected to be f32")
        .values()
        .to_vec()
}

fn all_frames(batches: &[FrameBatch]) -> Vec<u64> {
    batches.iter().flat_map(frames_of).collect()
}

fn all_samples(batches: &[FrameBatch]) -> Vec<f32> {
    batches.iter().flat_map(samples_of).collect()
}

fn decoded(batches: &[FrameBatch], config: &RenderConfig) -> Vec<f32> {
    decode_from_frames(batches, config).unwrap().into_iter().map(float).collect()
}

fn assert_samples_approximately_equal(actual: &[f32], expected: &[f32]) {
    assert_eq!(actual.len(), expected.len());
    for (frame, (&actual, &expected)) in actual.iter().zip(expected).enumerate() {
        assert_value_approximately_equal(actual, expected, &format!("sample at frame {frame}"));
    }
}

fn assert_value_approximately_equal(actual: f32, expected: f32, context: &str) {
    let absolute_difference = (actual - expected).abs();
    let tolerance = f32::max(1e-7, 1e-5 * f32::max(actual.abs(), expected.abs()));
    assert!(
        absolute_difference <= tolerance,
        "{context} mismatch: expected {expected}, got {actual}"
    );
}

fn eight_hertz(frame_count: u64, capacity: usize) -> RenderConfig {
    RenderConfig::builder()
        .sample_rate_hz(8)
        .frame_count(frame_count)
        .batch_frame_capacity(capacity)
        .build()
        .expect("test configuration should be valid")
}

fn test_config() -> RenderConfig {
    eight_hertz(10, 4)
}

fn tuned_config() -> RenderConfig {
    RenderConfig::builder()
        .sample_rate_hz(8)
        .frame_count(10)
        .batch_frame_capacity(4)
        .frequency_hz(double(2.0))
        .build()
        .expect("test configuration should be valid")
}

fn gain_plan(config: &RenderConfig, gain: f32) -> Arc<Plan> {
    let node = FrameGainExec::try_new(config, sine(config, 2.0), single(gain))
        .expect("expected successful construction of new FrameGainExec");
    Arc::new(Plan::Gain(node))
}

fn gain_limit_plan(config: &RenderConfig, gain: f32) -> Arc<Plan> {
    limit(gain_plan(config, gain), config.frame_count() as usize)
}

fn sine_at_frame(frame: u64, sample_rate_hz: u32, frequency_hz: f64) -> f32 {
    let phase = sine_phase_at_frame(frame, sample_rate_hz, double(frequency_hz));
    f64::from_bits(phase.bits).sin() as f32
}

fn test_sine_samples(frame: u64) -> f32 {
    match frame % 4 {
        0 | 2 => 0.0,
        1 => 1.0,
        3 => -1.0,
        _ => unreachable!(),
    }
}

// Gain.

#[test]
fn gain_node_rejects_non_finite_gain() {
    let config = test_config();
    let source = sine(&config, 2.0);
    for gain in [f32::NAN, f32::INFINITY, f32::NEG_INFINITY] {
        let error =
            FrameGainExec::try_new(&config, Arc::clone(&source), single(gain)).unwrap_err();
        assert!(error.to_string().contains("gain must be finite"), "{}", error.to_string());
    }
}

#[test]
fn gain_rejects_invalid_child_samples() {
    let config = test_config();
    for sample in [f32::NAN, 1.01, -1.01] {
        let source = memory(&config, 1);
        let gain = Arc::new(Plan::Gain(
            FrameGainExec::try_new(&config, source, single(0.0)).unwrap(),
        ));
        let error =
            collect_with(&gain, vec![vec![record(&config, vec![3], vec![sample])]]).unwrap_err();
        assert!(error.to_string().contains("frame 3"), "{}", error.to_string());
    }
}

#[test]
fn test_gain() {
    let plan = gain_limit_plan(&test_config(), 0.5);

    let batches = collect(&plan).expect("expect no error collecting batches");

    assert_eq!(batches.len(), 3);
    assert_eq!(row_counts(&batches), vec![4, 4, 2]);
    assert_eq!(all_frames(&batches), (0_u64..10).collect::<Vec<_>>());
    assert_samples_approximately_equal(
        &all_samples(&batches),
        &[0.0_f32, 0.5, 0., -0.5, 0., 0.5, 0.0, -0.5, 0., 0.5],
    );

    match plan.children()[0].as_ref() {
        Plan::Gain(node) => {
            assert_eq!(node.describe(DisplayFormat::Default), "FrameGainExec: gain=0.5");
            assert_eq!(node.describe(DisplayFormat::Tree), "gain=0.5");
        }
        _ => panic!("expected a gain"),
    }
}

#[test]
fn test_gain_handles_zero_negative_small_and_large_factors() {
    for gain in [0.0, -0.5, 1e-4, 1e4] {
        let config = test_config();
        let plan = gain_limit_plan(&config, gain);
        let batches = collect(&plan).expect("bounded gain render should collect successfully");
        let samples = decoded(&batches, &config);
        let expected = (0..config.frame_count())
            .map(|frame| {
                let unit_sample = match frame % 4 {
                    0 | 2 => 0.0,
                    1 => 1.0,
                    3 => -1.0,
                    _ => unreachable!(),
                };
                let scaled: f32 = unit_sample * gain;
                scaled.clamp(-1.0, 1.0)
            })
            .collect::<Vec<_>>();

        assert_samples_approximately_equal(&samples, &expected);

        let actual_peak = samples.iter().copied().map(f32::abs).fold(0.0, f32::max);
        assert_value_approximately_equal(actual_peak, gain.abs().min(1.0), "peak magnitude");
    }
}

#[test]
fn test_gain_schema() {
    let plan = gain_plan(&RenderConfig::builder().build().unwrap(), 0.5);
    assert_eq!(plan.properties().schema, frame_schema(&RenderConfig::default()));
}

#[test]
fn test_gain_boundedness() {
    let plan = gain_plan(&RenderConfig::default(), 0.5);
    assert_eq!(
        plan.properties().extent,
        Extent::Unbounded { requires_infinite_memory: false }
    );
}

#[test]
fn test_gain_rejects_an_incompatible_frame_schema() {
    let source_config = test_config();
    let expected_config = RenderConfig::builder()
        .sample_rate_hz(16)
        .frame_count(source_config.frame_count())
        .batch_frame_capacity(source_config.batch_frame_capacity())
        .build()
        .expect("expected-schema configuration should be valid");
    let source = sine(&source_config, 2.0);

    let error = FrameGainExec::try_new(&expected_config, source, single(0.5))
        .expect_err("mismatched sample-rate metadata should be rejected");

    match error {
        NodeError::Plan(message) => {
            assert!(message.contains("FrameGainExec expected input schema"), "{message}");
            assert!(message.contains("audio.sample_rate_hz"), "{message}");
        }
        other => panic!("expected a plan error, got {}", other.to_string()),
    }
}

#[test]
fn test_gain_preserves_bounded_child_properties() {
    let config = test_config();
    let bounded_input = limit(sine(&config, 2.0), config.frame_count() as usize);

    let gain = FrameGainExec::try_new(&config, bounded_input, single(0.5))
        .expect("bounded frame input should be accepted");

    assert_eq!(Plan::Gain(gain).properties().extent, Extent::Bounded);
}

#[test]
fn test_gain_with_children_recomputes_properties() {
    let config = test_config();
    let gain = FrameGainExec::try_new(&config, sine(&config, 2.0), single(0.5)).unwrap();
    let bounded_replacement = limit(sine(&config, 2.0), config.frame_count() as usize);

    let rebuilt = gain
        .with_new_children(vec![bounded_replacement])
        .expect("bounded replacement child should be accepted");

    assert_eq!(rebuilt.gain(), single(0.5));
    assert_eq!(Plan::Gain(rebuilt).properties().extent, Extent::Bounded);
}

#[test]
fn test_repeated_gain_executions_are_independent() {
    let config = test_config();
    let plan = gain_limit_plan(&config, 0.5);

    let first_batches = collect(&plan).expect("first gain execution should collect successfully");
    let second_batches = collect(&plan).expect("second gain execution should collect successfully");

    assert_samples_approximately_equal(
        &decoded(&first_batches, &config),
        &decoded(&second_batches, &config),
    );
}

#[test]
fn gain_rejects_other_children_and_other_batches() {
    let config = test_config();
    let other = eight_hertz(10, 4);
    let sixteen = RenderConfig::builder()
        .sample_rate_hz(16)
        .frame_count(10)
        .build()
        .unwrap();
    let gain = |config: &RenderConfig| {
        FrameGainExec::try_new(config, memory(config, 1), single(1.0)).unwrap()
    };
    match gain(&config).with_new_children(vec![]) {
        Err(NodeError::Internal(message)) => {
            assert_eq!(message, "FrameGainExec supports only one child");
        }
        _ => panic!("expected an internal error"),
    }
    assert!(matches!(
        gain(&config).with_new_children(vec![memory(&sixteen, 1)]),
        Err(NodeError::Plan(message)) if message.contains("expected input schema to be")
    ));
    assert!(gain(&config).with_new_children(vec![memory(&other, 3)]).is_ok());
    let foreign = FrameBatch { batch: record(&sixteen, vec![0], vec![0.0]) };
    assert!(matches!(
        gain(&config).apply(&foreign),
        Err(NodeError::Execution(message))
            if message == "FrameGainExec received an incompatible batch schema"
    ));
}

#[test]
fn gain_computes_in_double_precision_and_saturates() {
    let config = test_config();
    for (sample, factor) in [
        (0.1f32, 3.3f32),
        (-0.7, 0.3333),
        (1.0, f32::MAX),
        (-1.0, f32::MAX),
        (1e-45, 0.5),
        (0.5, -0.0),
        (0.3, 1e-40),
    ] {
        let node = FrameGainExec::try_new(&config, memory(&config, 1), single(factor)).unwrap();
        let batch = FrameBatch { batch: record(&config, vec![7], vec![sample]) };
        let output = node.apply(&batch).unwrap();
        let expected = (f64::from(sample) * f64::from(factor)).clamp(-1.0, 1.0) as f32;
        assert_eq!(samples_of(&output)[0].to_bits(), expected.to_bits());
        assert_eq!(frames_of(&output), [7]);
        assert!((-1.0..=1.0).contains(&samples_of(&output)[0]));
    }
}

// Low-pass filter.

fn filter_config() -> RenderConfig {
    RenderConfig::builder()
        .sample_rate_hz(8)
        .frame_count(8)
        .build()
        .unwrap()
}

fn filter(config: &RenderConfig, input: Arc<Plan>, cutoff: f64) -> FrameLowPassFilterExec {
    FrameLowPassFilterExec::try_new(config, input, double(cutoff)).unwrap()
}

#[test]
fn rejects_invalid_cutoffs_and_input_schema() {
    let config = filter_config();
    let source = memory(&config, 1);
    for cutoff in [f64::NAN, f64::INFINITY, f64::NEG_INFINITY, -1.0, 0.0, 4.0] {
        assert!(matches!(
            FrameLowPassFilterExec::try_new(&config, Arc::clone(&source), double(cutoff)),
            Err(NodeError::Plan(message)) if message.contains("cutoff_hz")
        ));
    }
    let other = RenderConfig::builder()
        .sample_rate_hz(16)
        .frame_count(8)
        .build()
        .unwrap();
    assert!(matches!(
        FrameLowPassFilterExec::try_new(&config, memory(&other, 1), double(1.0)),
        Err(NodeError::Plan(message)) if message.contains("expected input schema")
    ));
}

#[test]
fn impulse_decays_across_batches_and_missing_frames() {
    let config = filter_config();
    let sources = || {
        vec![vec![
            record(&config, vec![0, 1], vec![1.0, 0.0]),
            record(&config, vec![2, 4], vec![0.0, 0.0]),
        ]]
    };
    let cutoff = 8.0 * 2.0_f64.ln() / (2.0 * std::f64::consts::PI);
    let node = filter(&config, memory(&config, 1), cutoff);
    assert!(node.describe(DisplayFormat::Default).contains("FrameLowPassFilterExec"));
    let plan = Arc::new(Plan::LowPass(node));
    assert_eq!(plan.properties().extent, Extent::Bounded);
    assert_eq!(plan.properties().schema, frame_schema(&config));

    for _ in 0..2 {
        let batches = collect_with(&plan, sources()).unwrap();
        assert_eq!(row_counts(&batches), vec![2, 2]);
        let actual = all_frames(&batches).into_iter().zip(all_samples(&batches));
        for ((frame, sample), (expected_frame, expected_sample)) in
            actual.zip([(0, 0.5), (1, 0.25), (2, 0.125), (4, 0.03125)])
        {
            assert_eq!(frame, expected_frame);
            assert!((sample - expected_sample).abs() < 1e-6);
        }
    }
}

#[test]
fn partitions_have_independent_state_and_replacement_updates_properties() {
    let config = filter_config();
    let node = filter(&config, memory(&config, 2), 1.0);
    let plan = Arc::new(Plan::LowPass(node));
    assert_eq!(plan.properties().partitions, 2);
    for _partition in 0..2 {
        let batches =
            collect_with(&plan, vec![vec![record(&config, vec![0], vec![1.0])]]).unwrap();
        let sample = samples_of(&batches[0])[0];
        assert!((sample - (1.0 - (-std::f64::consts::PI / 4.0).exp()) as f32).abs() < 1e-6);
    }

    let replacement = memory(&config, 1);
    let rebuilt = filter(&config, memory(&config, 2), 1.0)
        .with_new_children(vec![replacement])
        .unwrap();
    assert_eq!(rebuilt.cutoff_hz(), double(1.0));
    let rebuilt = Plan::LowPass(rebuilt);
    assert_eq!(rebuilt.properties().partitions, 1);
    assert_eq!(rebuilt.properties().extent, Extent::Bounded);
}

#[test]
fn rejects_repeated_frames_and_non_finite_samples() {
    let config = filter_config();
    for (frames, samples, message) in [
        (vec![0, 0], vec![1.0, 0.0], "must increase"),
        (vec![0], vec![f32::NAN], "non-finite sample"),
    ] {
        let plan = Arc::new(Plan::LowPass(filter(&config, memory(&config, 1), 1.0)));
        let error = collect_with(&plan, vec![vec![record(&config, frames, samples)]])
            .err()
            .unwrap();
        assert!(error.to_string().contains(message), "{}", error.to_string());
    }
}

#[test]
fn filter_faults_name_the_frames() {
    let config = filter_config();
    let node = filter(&config, memory(&config, 1), 1.0);
    let mut run = node.execute(double(0.5), double(0.5));
    let first = run.inspect(&FrameBatch { batch: record(&config, vec![5], vec![1.0]) }).unwrap();
    assert_eq!(first.elapsed, [1]);
    let batch = run.apply(first, &vec![double(0.0)]).unwrap();
    assert_eq!(samples_of(&batch), [0.5]);
    // The rows before a fault still count.
    let rows = run
        .inspect(&FrameBatch { batch: record(&config, vec![6, 9, 9], vec![1.0, 1.0, 0.0]) })
        .unwrap();
    assert_eq!(rows.elapsed, [1, 3]);
    match run.apply(rows, &vec![double(9.0), double(0.125)]) {
        Err(NodeError::Execution(message)) => assert_eq!(
            message,
            "FrameLowPassFilterExec input frames must increase: 9 follows 9"
        ),
        _ => panic!("expected an execution error"),
    }
    let rows =
        run.inspect(&FrameBatch { batch: record(&config, vec![10], vec![0.0]) }).unwrap();
    let batch = run.apply(rows, &vec![double(0.0)]).unwrap();
    // 0.5 -> 0.75 -> 0.59375 -> 0.296875
    assert_eq!(samples_of(&batch), [0.296875]);
    let other = RenderConfig::builder()
        .sample_rate_hz(16)
        .frame_count(8)
        .build()
        .unwrap();
    assert!(matches!(
        run.inspect(&FrameBatch { batch: record(&other, vec![11], vec![0.0]) }),
        Err(NodeError::Execution(message))
            if message == "FrameLowPassFilterExec received an incompatible batch schema"
    ));
}

#[test]
fn filter_output_does_not_depend_on_batch_boundaries() {
    let config = filter_config();
    let frames: Vec<u64> = vec![0, 1, 2, 5, 6, 9];
    let samples: Vec<f32> = vec![1.0, -0.5, 0.25, 0.75, -1.0, 0.125];
    let mut outputs = Vec::new();
    for cut in 0..=frames.len() {
        let plan = Arc::new(Plan::LowPass(filter(&config, memory(&config, 1), 1.5)));
        let batches = vec![
            record(&config, frames[..cut].to_vec(), samples[..cut].to_vec()),
            record(&config, frames[cut..].to_vec(), samples[cut..].to_vec()),
        ];
        outputs.push(all_samples(&collect_with(&plan, vec![batches]).unwrap()));
    }
    for output in &outputs {
        assert_eq!(output, &outputs[0]);
    }
}

#[test]
fn a_gap_filters_like_silent_rows() {
    let config = filter_config();
    let node = filter(&config, memory(&config, 1), 1.0);
    let filtered = |frames: Vec<u64>, samples: Vec<f32>| {
        let mut run = node.execute(double(0.5), double(0.5));
        let batch = FrameBatch { batch: record(&config, frames, samples) };
        let rows = run.inspect(&batch).unwrap();
        let powers = rows
            .elapsed
            .iter()
            .map(|elapsed| double(0.5_f64.powi(*elapsed as i32)))
            .collect::<Vec<_>>();
        samples_of(&run.apply(rows, &powers).unwrap())
    };
    let gaps = filtered(vec![2, 5, 6, 8], vec![1.0, -0.5, 0.25, 0.75]);
    let dense = filtered(
        vec![2, 3, 4, 5, 6, 7, 8],
        vec![1.0, 0.0, 0.0, -0.5, 0.25, 0.0, 0.75],
    );
    assert_eq!(gaps, [dense[0], dense[3], dense[4], dense[6]]);
}

#[test]
fn a_gap_filters_like_silent_rows_up_to_rounding() {
    let config = filter_config();
    let node = filter(&config, memory(&config, 1), 1.0);
    for decay in [0.0_f64, 0.1, 1.0 / 3.0, 0.7, 0.999] {
        let filtered = |frames: Vec<u64>, samples: Vec<f32>| {
            let mut run = node.execute(double(1.0 - decay), double(decay));
            let batch = FrameBatch { batch: record(&config, frames, samples) };
            let rows = run.inspect(&batch).unwrap();
            let powers = rows
                .elapsed
                .iter()
                .map(|elapsed| double(decay.powf(*elapsed as f64)))
                .collect::<Vec<_>>();
            samples_of(&run.apply(rows, &powers).unwrap())
        };
        let gaps = filtered(vec![0, 40, 41, 99], vec![1.0, -0.5, 0.25, 0.75]);
        let mut all = vec![0.0_f32; 100];
        all[0] = 1.0;
        all[40] = -0.5;
        all[41] = 0.25;
        all[99] = 0.75;
        let dense = filtered((0..100).collect(), all);
        for (gap, frame) in gaps.iter().zip([0, 40, 41, 99]) {
            assert!((gap - dense[frame]).abs() <= 1e-6);
        }
    }
}

// Merging and mixing.

#[test]
fn cursor_aligns_frames_across_batch_boundaries_and_finished_inputs() {
    let config = RenderConfig::builder().build().unwrap();
    let mut inputs = [
        vec![
            record(&config, vec![0, 1], vec![1.0, 2.0]),
            record(&config, vec![2, 3, 4], vec![3.0, 4.0, 5.0]),
        ]
        .into_iter(),
        vec![
            RecordBatch::new_empty(frame_schema(&config)),
            record(&config, vec![1], vec![20.0]),
            record(&config, vec![2, 3], vec![30.0, 40.0]),
        ]
        .into_iter(),
        vec![].into_iter(),
    ];
    let mut cursor = FrameMergeCursor::new(3);

    let mut output = Vec::new();
    loop {
        for (index, input) in inputs.iter_mut().enumerate() {
            while cursor.input_needs_load(index) {
                match input.next() {
                    Some(batch) => cursor.load(index, &FrameBatch { batch }),
                    None => cursor.end(index),
                }
            }
        }
        assert!(!cursor.needs_load());
        match cursor.next_frame().unwrap() {
            Some((frame, samples)) => output.push((
                frame,
                samples.into_iter().map(|sample| sample.map(float)).collect::<Vec<_>>(),
            )),
            None => break,
        }
    }
    assert_eq!(
        output,
        vec![
            (0, vec![Some(1.0), None, None]),
            (1, vec![Some(2.0), Some(20.0), None]),
            (2, vec![Some(3.0), Some(30.0), None]),
            (3, vec![Some(4.0), Some(40.0), None]),
            (4, vec![Some(5.0), None, None]),
        ]
    );
}

#[test]
fn cursor_rejects_out_of_order_frames() {
    let config = RenderConfig::builder().build().unwrap();
    for batches in [
        vec![record(&config, vec![2, 1], vec![1.0, 2.0])],
        vec![record(&config, vec![2], vec![1.0]), record(&config, vec![2], vec![2.0])],
    ] {
        let mut input = batches.into_iter();
        let mut cursor = FrameMergeCursor::new(1);
        cursor.load(0, &FrameBatch { batch: input.next().unwrap() });
        let (frame, samples) = cursor.next_frame().unwrap().unwrap();
        assert_eq!((frame, samples), (2, vec![Some(single(1.0))]));
        while cursor.input_needs_load(0) {
            match input.next() {
                Some(batch) => cursor.load(0, &FrameBatch { batch }),
                None => cursor.end(0),
            }
        }
        let error = cursor.next_frame().unwrap_err();
        assert!(error.to_string().contains("input frames must increase"));
    }
}

#[test]
fn cursor_names_what_is_wrong_with_a_row() {
    let config = RenderConfig::builder().build().unwrap();
    let cases: Vec<(RecordBatch, &str)> = vec![
        (
            RecordBatch::try_from_iter(vec![
                ("frame", Arc::new(Float32Array::from(vec![0.0])) as Arc<dyn Array>),
                ("sample", Arc::new(Float32Array::from(vec![0.0])) as Arc<dyn Array>),
            ])
            .unwrap(),
            "Execution error: ZipCursor expected UInt64 frames",
        ),
        (
            RecordBatch::try_from_iter(vec![
                ("frame", Arc::new(UInt64Array::from(vec![0])) as Arc<dyn Array>),
                ("sample", Arc::new(UInt64Array::from(vec![0])) as Arc<dyn Array>),
            ])
            .unwrap(),
            "Execution error: ZipCursor expected Float32 samples",
        ),
        (
            RecordBatch::try_from_iter(vec![
                ("frame", Arc::new(UInt64Array::from(vec![None])) as Arc<dyn Array>),
                ("sample", Arc::new(Float32Array::from(vec![0.0])) as Arc<dyn Array>),
            ])
            .unwrap(),
            "Execution error: ZipCursor received a null frame or sample",
        ),
        (
            RecordBatch::try_from_iter(vec![
                ("frame", Arc::new(UInt64Array::from(vec![0])) as Arc<dyn Array>),
                ("sample", Arc::new(Float32Array::from(vec![None])) as Arc<dyn Array>),
            ])
            .unwrap(),
            "Execution error: ZipCursor received a null frame or sample",
        ),
    ];
    for (batch, message) in cases {
        let mut cursor = FrameMergeCursor::new(2);
        cursor.load(0, &FrameBatch { batch: record(&config, vec![4], vec![1.0]) });
        cursor.load(1, &FrameBatch { batch });
        assert_eq!(cursor.next_frame().unwrap_err().to_string(), message);
    }
}

#[test]
fn mix_rejects_invalid_inputs() {
    let config = RenderConfig::default();
    let input = memory(&config, 1);

    assert!(matches!(
        FrameMixExec::try_new(&config, vec![Arc::clone(&input)], vec![]),
        Err(NodeError::Plan(message)) if message.contains("same number of inputs as gains")
    ));

    let other_config = RenderConfig::builder().sample_rate_hz(96_000).build().unwrap();
    let wrong_schema = memory(&other_config, 1);
    assert!(matches!(
        FrameMixExec::try_new(&config, vec![wrong_schema], singles(&[1.0])),
        Err(NodeError::Plan(message)) if message.contains("expected input schema")
    ));

    let multi_partition = memory(&config, 2);
    assert!(matches!(
        FrameMixExec::try_new(&config, vec![multi_partition], singles(&[1.0])),
        Err(NodeError::Plan(message)) if message.contains("one partition")
    ));

    for gain in [f32::NAN, f32::INFINITY, f32::NEG_INFINITY] {
        assert!(matches!(
            FrameMixExec::try_new(&config, vec![Arc::clone(&input)], singles(&[gain])),
            Err(NodeError::Plan(message)) if message.contains("gain at input 0 must be finite")
        ));
    }
    assert!(matches!(
        FrameMixExec::try_new(
            &config,
            vec![Arc::clone(&input), input],
            singles(&[1.0, f32::NAN])
        ),
        Err(NodeError::Plan(message)) if message == "FrameMixExec gain at input 1 must be finite"
    ));
}

#[test]
fn mix_properties_account_for_a_final_unbounded_input() {
    let config = RenderConfig::default();
    let bounded = memory(&config, 1);
    let final_input = Arc::new(Plan::Source(Properties {
        schema: frame_schema(&config),
        partitions: 1,
        emission: Emission::Final,
        extent: Extent::Unbounded { requires_infinite_memory: true },
        frame_ordered: false,
    }));
    let mix =
        FrameMixExec::try_new(&config, vec![bounded, final_input], singles(&[1.0, 1.0])).unwrap();
    let mix = Plan::Mix(mix);

    assert_eq!(mix.properties().emission, Emission::Final);
    assert_eq!(
        mix.properties().extent,
        Extent::Unbounded { requires_infinite_memory: true }
    );
}

#[test]
fn mix_properties_follow_every_input() {
    let config = RenderConfig::default();
    let source = |emission: Emission, extent: Extent| {
        Arc::new(Plan::Source(Properties {
            schema: frame_schema(&config),
            partitions: 1,
            emission,
            extent,
            frame_ordered: false,
        }))
    };
    let endless = Extent::Unbounded { requires_infinite_memory: false };
    let hungry = Extent::Unbounded { requires_infinite_memory: true };
    for (inputs, emission, extent) in [
        (vec![], Emission::Incremental, Extent::Bounded),
        (
            vec![(Emission::Both, Extent::Bounded), (Emission::Incremental, endless)],
            Emission::Both,
            endless,
        ),
        (
            vec![(Emission::Incremental, hungry), (Emission::Incremental, endless)],
            Emission::Incremental,
            hungry,
        ),
        (
            vec![(Emission::Both, endless), (Emission::Final, Extent::Bounded)],
            Emission::Final,
            endless,
        ),
    ] {
        let plans = inputs.into_iter().map(|(e, x)| source(e, x)).collect::<Vec<_>>();
        let gains = vec![single(1.0); plans.len()];
        let mix = Plan::Mix(FrameMixExec::try_new(&config, plans, gains).unwrap());
        assert_eq!(mix.properties().emission, emission);
        assert_eq!(mix.properties().extent, extent);
        assert!(mix.properties().frame_ordered);
        assert_eq!(mix.properties().partitions, 1);
    }
}

#[test]
fn replacing_children_preserves_gain_and_batching_and_updates_boundedness() {
    let config = RenderConfig::builder()
        .sample_rate_hz(8)
        .frame_count(5)
        .batch_frame_capacity(2)
        .build()
        .unwrap();
    let empty = memory(&config, 1);
    let original = sine(&config, 2.0);
    let mix = FrameMixExec::try_new(
        &config,
        vec![Arc::clone(&empty), original],
        singles(&[10.0, -2.0]),
    )
    .unwrap();
    assert_eq!(mix.describe(DisplayFormat::Default), "FrameMixExec: gains=[10.0, -2.0]");
    let mix = match Plan::Mix(mix) {
        Plan::Mix(mix) => {
            let plan = Plan::Mix(mix);
            assert!(matches!(plan.properties().extent, Extent::Unbounded { .. }));
            match plan {
                Plan::Mix(mix) => mix,
                _ => unreachable!(),
            }
        }
        _ => unreachable!(),
    };

    let replacement = limit(sine(&config, 2.0), 3);
    let rebuilt =
        Arc::new(Plan::Mix(mix.with_new_children(vec![empty, replacement]).unwrap()));
    assert_eq!(rebuilt.properties().extent, Extent::Bounded);

    let batches = collect_with(&rebuilt, vec![vec![]]).unwrap();
    assert_eq!(row_counts(&batches), vec![2, 1]);
    for (frame, sample) in all_samples(&batches).into_iter().enumerate() {
        let expected = sine_at_frame(frame as u64, 8, 2.0) * -2.0;
        assert!((sample - expected).abs() < 1e-5);
    }
}

#[test]
fn empty_mix_finishes_without_batches_and_rejects_unknown_partition() {
    let config = RenderConfig::default();
    let mix = FrameMixExec::try_new(&config, vec![], vec![]).unwrap();
    assert!(matches!(
        mix.execute(1),
        Err(NodeError::Execution(message)) if message.contains("partition 0")
    ));
    let plan = Arc::new(Plan::Mix(mix));
    assert_eq!(plan.properties().extent, Extent::Bounded);
    assert!(collect(&plan).unwrap().is_empty());
}

#[test]
fn mix_continues_until_all_inputs_end_with_different_batch_sizes() {
    let config = RenderConfig::builder()
        .sample_rate_hz(8)
        .frame_count(5)
        .batch_frame_capacity(2)
        .build()
        .unwrap();
    let other_config = RenderConfig::builder()
        .sample_rate_hz(8)
        .frame_count(5)
        .batch_frame_capacity(3)
        .build()
        .unwrap();
    let first = limit(sine(&config, 2.0), 5);
    let second = limit(sine(&other_config, 1.0), 3);
    let empty = memory(&config, 1);
    let mix = Arc::new(Plan::Mix(
        FrameMixExec::try_new(
            &config,
            vec![first, second, empty],
            singles(&[0.5, -2.0, 7.0]),
        )
        .unwrap(),
    ));

    let batches = collect_with(&mix, vec![vec![]]).unwrap();
    assert_eq!(row_counts(&batches), vec![2, 2, 1]);
    assert_eq!(all_frames(&batches), vec![0, 1, 2, 3, 4]);
    for (frame, sample) in all_frames(&batches).into_iter().zip(all_samples(&batches)) {
        let first = sine_at_frame(frame, 8, 2.0) * 0.5;
        let second = if frame < 3 { sine_at_frame(frame, 8, 1.0) * -2.0 } else { 0.0 };
        let expected = first + second;
        assert!(
            (sample - expected).abs() < 1e-5,
            "frame {frame}: {sample} != {expected}"
        );
        if frame == 2 {
            assert!(sample < -1.0, "mixed sample should not be clipped");
        }
    }
}

#[test]
fn one_render_config_supports_independently_tuned_sources() {
    let config = RenderConfig::builder()
        .sample_rate_hz(8)
        .frame_count(8)
        .batch_frame_capacity(3)
        .build()
        .unwrap();
    let mix = Arc::new(Plan::Mix(
        FrameMixExec::try_new(
            &config,
            vec![sine(&config, 1.0), sine(&config, 2.0)],
            singles(&[0.25, 0.5]),
        )
        .unwrap(),
    ));
    let batches = collect(&limit(mix, 8)).unwrap();
    let samples = decoded(&batches, &config);

    for (frame, expected) in [(0, 0.0), (1, 0.6767767), (2, 0.25), (3, -0.3232233)] {
        let difference: f32 = samples[frame] - expected;
        assert!(difference.abs() < 1e-6);
    }
}

#[test]
fn sine_and_square_are_mixed_at_matching_frames_with_individual_gains() {
    let config = RenderConfig::builder()
        .sample_rate_hz(8)
        .frame_count(8)
        .batch_frame_capacity(3)
        .build()
        .unwrap();

    for (gains, expected) in [
        ([1.0, 0.0], [0.0, 1.0, 0.0, -1.0]),
        ([0.0, 1.0], [1.0, 1.0, -1.0, -1.0]),
        ([0.4, 0.6], [0.6, 1.0, -0.6, -1.0]),
    ] {
        let square = Arc::new(Plan::Square(
            FrameSquareOscExec::try_new(&config, double(1.0), double(0.5)).unwrap(),
        ));
        let mix = Arc::new(Plan::Mix(
            FrameMixExec::try_new(&config, vec![sine(&config, 1.0), square], singles(&gains))
                .unwrap(),
        ));
        let master_gain = Arc::new(Plan::Gain(
            FrameGainExec::try_new(&config, mix, single(0.5)).unwrap(),
        ));
        let batches = collect(&limit(master_gain, 8)).unwrap();
        let samples = decoded(&batches, &config);

        for (frame, expected_sample) in
            [(0, expected[0]), (2, expected[1]), (4, expected[2]), (6, expected[3])]
        {
            let difference: f32 = samples[frame] - expected_sample * 0.5;
            assert!(
                difference.abs() < 1e-5,
                "gains {gains:?}, frame {frame}: {} != {}",
                samples[frame],
                expected_sample * 0.5,
            );
        }
    }
}

#[test]
fn mixed_frames_increase_across_batches_and_gaps() {
    let config = eight_hertz(8, 2);
    let mix = Arc::new(Plan::Mix(
        FrameMixExec::try_new(
            &config,
            vec![memory(&config, 1), memory(&config, 1)],
            singles(&[1.0, 10.0]),
        )
        .unwrap(),
    ));
    let sources = vec![
        vec![record(&config, vec![3, 8], vec![0.5, 0.25]), record(&config, vec![9], vec![1.0])],
        vec![record(&config, vec![1, 2, 9], vec![1.0, 2.0, 3.0])],
    ];
    let batches = collect_with(&mix, sources).unwrap();
    assert_eq!(all_frames(&batches), vec![1, 2, 3, 8, 9]);
    assert_eq!(all_samples(&batches), vec![10.0, 20.0, 0.5, 0.25, 31.0]);
    assert_eq!(row_counts(&batches), vec![2, 2, 1]);
}

fn next(state: &mut u64) -> u64 {
    *state ^= *state << 13;
    *state ^= *state >> 7;
    *state ^= *state << 17;
    *state
}

#[test]
fn mixing_agrees_with_the_machine() {
    let mut state = 0x5eed_5eed_5eed_5eed;
    let zero = |bits: u32| Some(Single { bits });
    assert_eq!(mix(&vec![], &vec![]).bits, std::iter::empty::<f32>().sum::<f32>().to_bits());
    assert_eq!(float(mix(&vec![zero(0x8000_0000)], &singles(&[1.0]))).to_bits(), 0x8000_0000);
    assert_eq!(float(mix(&vec![None], &singles(&[1.0]))).to_bits(), 0);
    for count in 0..6 {
        for _ in 0..500 {
            let samples = (0..count)
                .map(|_| match next(&mut state) % 4 {
                    0 => None,
                    _ => Some((next(&mut state) % 2001) as f32 / 1000.0 - 1.0),
                })
                .collect::<Vec<_>>();
            let gains = (0..count)
                .map(|_| (next(&mut state) % 5001) as f32 / 997.0 - 2.0)
                .collect::<Vec<_>>();
            let expected: f32 = samples
                .iter()
                .zip(&gains)
                .map(|(sample, gain)| sample.unwrap_or(0.0) * gain)
                .sum();
            let held = samples.iter().map(|sample| sample.map(single)).collect();
            assert_eq!(mix(&held, &singles(&gains)).bits, expected.to_bits());
        }
    }
}

#[test]
fn filtering_agrees_with_the_machine() {
    let config = filter_config();
    let mut state = 0x00c0_ffee_0000_0001;
    let node = filter(&config, memory(&config, 1), 1.25);
    let exponent = -2.0 * std::f64::consts::PI * 1.25 / 8.0;
    assert_eq!(f64::from_bits(node.exponent().bits), exponent);
    let (alpha, decay) = (-exponent.exp_m1(), exponent.exp());
    let mut run = node.execute(double(alpha), double(decay));
    let mut expected_state = 0.0_f64;
    let mut frame = 0;
    let mut last = None;
    for _ in 0..200 {
        frame += 1 + next(&mut state) % 3;
        let sample = (next(&mut state) % 2001) as f32 / 1000.0 - 1.0;
        let rows = run
            .inspect(&FrameBatch { batch: record(&config, vec![frame], vec![sample]) })
            .unwrap();
        let elapsed = last.map_or(1, |last| frame - last);
        assert_eq!(rows.elapsed, [elapsed]);
        let power = decay.powf(elapsed as f64);
        let retained = if elapsed == 1 { decay } else { power };
        expected_state = retained * expected_state + alpha * f64::from(sample);
        let batch = run.apply(rows, &vec![double(power)]).unwrap();
        assert_eq!(samples_of(&batch)[0].to_bits(), (expected_state as f32).to_bits());
        last = Some(frame);
    }
}

#[test]
fn signals_are_shared_by_their_copies() {
    let config = test_config();
    let plan = sine(&config, 1.0);
    let signal = FramePlan::try_from_plan(&config, Arc::clone(&plan)).unwrap();
    assert!(Arc::ptr_eq(&signal.clone().into_plan(), &plan));
    assert!(FrameBatch { batch: record(&config, vec![], vec![]) }.has_two_columns());
    let narrow = RecordBatch::try_from_iter(vec![(
        "frame",
        Arc::new(UInt64Array::from(vec![0])) as Arc<dyn Array>,
    )])
    .unwrap();
    assert!(!FrameBatch { batch: narrow }.has_two_columns());
}

// Sine oscillator.

#[test]
fn sine_source_validates_its_own_frequency() {
    let config = test_config();
    assert!(FrameSineOscExec::try_new(&config, double(0.0)).is_ok());
    for (frequency, message) in [
        (-1.0, "greater than or equal to 0"),
        (f64::NAN, "must be finite"),
        (f64::INFINITY, "must be finite"),
        (4.0, "below Nyquist"),
    ] {
        let error = FrameSineOscExec::try_new(&config, double(frequency)).unwrap_err();
        assert!(error.to_string().contains(message), "{}", error.to_string());
    }
}

#[test]
fn oscillators_take_the_configured_frequency_as_it_is() {
    let config = test_config();
    assert_eq!(config.frequency_hz(), double(440.0));
    assert_eq!(FrameSineOscExec::new(&config).frequency_hz(), double(440.0));
    assert_eq!(FrameSquareOscExec::new(&config).frequency_hz(), double(440.0));
    assert_eq!(FrameSquareOscExec::new(&config).sample_rate_hz(), 8);
    let batch = FrameSquareOscExec::new(&config).execute(0).unwrap().next_batch().unwrap();
    assert_eq!(samples_of(&batch), [1.0; 4]);
}

#[test]
fn internal_errors_ask_to_be_reported() {
    let error = FrameSineOscExec::new(&RenderConfig::default())
        .with_new_children(vec![memory(&test_config(), 1)])
        .unwrap_err();
    assert_eq!(
        error.to_string(),
        "Internal error: FrameSineOscExec has no children.\nThis issue was likely caused by a bug in DataFusion's code. Please help us to resolve this by filing a bug report in our issue tracker: https://github.com/apache/datafusion/issues"
    );
}

fn check_limited_sine(config: &RenderConfig, node: FrameSineOscExec, last: f32) {
    assert!(node.describe(DisplayFormat::Default).contains("FrameSineOscExec"));
    let plan = limit(Arc::new(Plan::Sine(node)), config.frame_count() as usize);
    assert_eq!(plan.properties().extent, Extent::Bounded);
    let batches = collect(&plan).expect("expect no error collecting batches");
    assert_eq!(batches.len(), 3);
    assert_eq!(row_counts(&batches), vec![4, 4, 2]);
    assert_eq!(all_frames(&batches), (0_u64..10).collect::<Vec<_>>());
    assert_eq!(all_samples(&batches).last(), Some(&last));
}

#[test]
fn sine_test_frame_sine_osc_exec_limited() {
    let config = test_config();
    let node = FrameSineOscExec::try_new(&config, double(2.0)).unwrap();
    check_limited_sine(&config, node, sine_at_frame(9, 8, 2.0));
}

#[test]
fn frame_execution_test_frame_sine_osc_exec_limited() {
    let config = tuned_config();
    check_limited_sine(&config, FrameSineOscExec::new(&config), test_sine_samples(9));
}

fn check_full_batches(
    config: &RenderConfig,
    node: FrameSineOscExec,
    expected: impl Fn(u64) -> f32,
) {
    let plan = Arc::new(Plan::Sine(node));
    let mut stream = open(&plan, &mut Vec::new());
    let batches = (0..3)
        .map(|_| stream().expect("batches should not fail to be generated").unwrap())
        .collect::<Vec<_>>();
    assert_eq!(row_counts(&batches), vec![4, 4, 4]);

    let mut next_expected_frame = 0_u64;
    for batch in &batches {
        assert_eq!(batch.batch.num_columns(), 2);
        let frames = frames_of(batch);
        let samples = samples_of(batch);
        for row in 0..batch.batch.num_rows() {
            let frame = next_expected_frame + row as u64;
            assert_eq!(frames[row], frame);
            let expected_sample = expected(frame);
            assert!(
                (samples[row] - expected_sample).abs() <= 1e-6,
                "unexpected sample at frame {frame}: expected {expected_sample}, got {}",
                samples[row]
            );
        }
        next_expected_frame += batch.batch.num_rows() as u64;
    }
    assert_eq!(next_expected_frame, 12);
    assert_eq!(config.batch_frame_capacity(), 4);
}

#[test]
fn sine_test_frame_sine_osc_exec_emits_continuous_full_batches() {
    let config = test_config();
    let node = FrameSineOscExec::try_new(&config, double(2.0)).unwrap();
    check_full_batches(&config, node, |frame| sine_at_frame(frame, 8, 2.0));
}

#[test]
fn frame_execution_test_frame_sine_osc_exec_emits_continuous_full_batches() {
    let config = tuned_config();
    let node = FrameSineOscExec::new(&config);
    check_full_batches(&config, node, test_sine_samples);
}

#[test]
fn sine_test_frame_sine_osc_exec_fails_for_non_zero_partition() {
    let exec = FrameSineOscExec::try_new(&test_config(), double(2.0)).unwrap();
    let error = exec.execute(1).err().expect("partition 1 should be rejected");
    assert!(error.to_string().contains("supports only partition 0, got 1"));
}

#[test]
fn frame_execution_test_frame_sine_osc_exec_fails_for_non_zero_partition() {
    let exec = FrameSineOscExec::new(&tuned_config());
    let error = exec.execute(1).err().expect("partition 1 should be rejected");
    assert!(error.to_string().contains("supports only partition 0, got 1"));
}

fn check_restart(node: FrameSineOscExec) {
    let plan = Arc::new(Plan::Sine(node));
    let first = open(&plan, &mut Vec::new())().unwrap().unwrap();
    let second = open(&plan, &mut Vec::new())().unwrap().unwrap();
    for column in 0..first.batch.num_columns() {
        assert_eq!(
            first.batch.column(column).to_data(),
            second.batch.column(column).to_data(),
            "independent executions should emit the same first batch"
        );
    }
    assert_eq!(frames_of(&first), [0, 1, 2, 3]);
}

#[test]
fn sine_test_different_frame_sine_osc_exec_executions_start_from_0() {
    check_restart(FrameSineOscExec::try_new(&test_config(), double(2.0)).unwrap());
}

#[test]
fn frame_execution_test_different_frame_sine_osc_exec_executions_start_from_0() {
    check_restart(FrameSineOscExec::new(&tuned_config()));
}

#[test]
fn sine_test_frame_sine_osc_exec_name() {
    let exec = FrameSineOscExec::try_new(&RenderConfig::default(), double(440.0)).unwrap();
    assert_eq!(exec.name(), "FrameSineOscExec");
}

#[test]
fn frame_execution_test_frame_sine_osc_exec_name() {
    let exec = FrameSineOscExec::new(&RenderConfig::default());
    assert_eq!(exec.name(), "FrameSineOscExec");
}

#[test]
fn sine_test_frame_sine_osc_exec_display_uses_the_node_name() {
    let exec = FrameSineOscExec::try_new(&test_config(), double(2.0)).unwrap();
    let display = exec.describe(DisplayFormat::Default);
    assert!(display.starts_with("FrameSineOscExec:"), "{display}");
}

#[test]
fn frame_execution_test_frame_sine_osc_exec_display_uses_the_node_name() {
    let exec = FrameSineOscExec::new(&tuned_config());
    let display = exec.describe(DisplayFormat::Default);
    assert!(display.starts_with("FrameSineOscExec:"), "{display}");
}

#[test]
fn sine_test_frame_sine_osc_exec_children() {
    let exec = FrameSineOscExec::try_new(&RenderConfig::default(), double(440.0)).unwrap();
    assert_eq!(exec.children().len(), 0);
}

#[test]
fn frame_execution_test_frame_sine_osc_exec_children() {
    let exec = FrameSineOscExec::new(&RenderConfig::default());
    assert_eq!(exec.children().len(), 0);
}

fn check_sine_children(make: impl Fn() -> FrameSineOscExec) {
    let result = make().with_new_children(vec![]);
    assert!(result.is_ok()); // With empty children succeeds.

    let result = make().with_new_children(vec![Arc::new(Plan::Sine(make()))]);
    assert!(result.is_err()); // With non-empty children fails.
    assert!(matches!(
        result,
        Err(NodeError::Internal(message)) if message == "FrameSineOscExec has no children"
    ));
}

#[test]
fn sine_test_frame_sine_osc_exec_with_children() {
    check_sine_children(|| {
        FrameSineOscExec::try_new(&RenderConfig::default(), double(440.0)).unwrap()
    });
}

#[test]
fn frame_execution_test_frame_sine_osc_exec_with_children() {
    check_sine_children(|| FrameSineOscExec::new(&RenderConfig::default()));
}

fn check_source_properties(plan: &Plan) {
    let properties = plan.properties();
    assert_eq!(properties.partitions, 1);
    assert_eq!(properties.emission, Emission::Incremental);
    assert_eq!(
        properties.extent,
        Extent::Unbounded { requires_infinite_memory: false }
    );
}

#[test]
fn sine_test_frame_sine_osc_exec_plan_properties() {
    let exec = FrameSineOscExec::try_new(&RenderConfig::default(), double(440.0)).unwrap();
    let plan = Plan::Sine(exec);
    check_source_properties(&plan);
    assert!(plan.properties().frame_ordered);
}

#[test]
fn frame_execution_test_frame_sine_osc_exec_plan_properties() {
    check_source_properties(&Plan::Sine(FrameSineOscExec::new(&RenderConfig::default())));
}

fn check_schema(plan: &Plan) {
    let schema = &plan.properties().schema;
    assert_eq!(schema.fields().len(), 2);

    assert_eq!(schema.field(0).name(), "frame");
    assert_eq!(schema.field(0).data_type(), &DataType::UInt64);
    assert!(!schema.field(0).is_nullable());

    assert_eq!(schema.field(1).name(), "sample");
    assert_eq!(schema.field(1).data_type(), &DataType::Float32);
    assert!(!schema.field(1).is_nullable());

    assert_eq!(schema.metadata().len(), 3);
    assert_eq!(schema.metadata().get("audio.sample_rate_hz").map(String::as_str), Some("8"));
    assert_eq!(schema.metadata().get("audio.channels").map(String::as_str), Some("1"));
    assert_eq!(schema.metadata().get("audio.layout").map(String::as_str), Some("frame"));
}

#[test]
fn sine_test_frame_sine_osc_exec_schema() {
    let exec = FrameSineOscExec::try_new(&test_config(), double(2.0)).unwrap();
    check_schema(&Plan::Sine(exec));
}

#[test]
fn frame_execution_test_frame_sine_osc_exec_schema() {
    check_schema(&Plan::Sine(FrameSineOscExec::new(&tuned_config())));
}

#[test]
fn sine_descriptions_show_the_values() {
    let exec = FrameSineOscExec::try_new(&test_config(), double(1.25)).unwrap();
    assert_eq!(
        exec.describe(DisplayFormat::Verbose),
        "FrameSineOscExec: frequency=1.25hz, sample_rate=8hz, batch_frame_capacity=4"
    );
    assert_eq!(
        exec.describe(DisplayFormat::Tree),
        "frequency=1.25hz\nsample_rate=8hz\nbatch_frame_capacity=4"
    );
}

// Square-wave oscillator.

fn square_config() -> RenderConfig {
    RenderConfig::builder()
        .sample_rate_hz(8)
        .frame_count(10)
        .batch_frame_capacity(4)
        .frequency_hz(double(2.0))
        .pulse_width(double(0.25))
        .build()
        .unwrap()
}

#[test]
fn limited_square_source_emits_expected_frames_and_samples() {
    let config = square_config();
    let source = Arc::new(Plan::Square(FrameSquareOscExec::new(&config)));
    let plan = limit(source, config.frame_count() as usize);
    assert_eq!(plan.properties().extent, Extent::Bounded);

    let batches = collect(&plan).unwrap();
    assert_eq!(row_counts(&batches), [4, 4, 2]);
    assert_eq!(all_frames(&batches), (0..10).collect::<Vec<_>>());
    assert_eq!(
        all_samples(&batches),
        [1.0, -1.0, -1.0, -1.0, 1.0, -1.0, -1.0, -1.0, 1.0, -1.0]
    );
}

#[test]
fn square_source_streams_full_batches_and_restarts_per_execution() {
    let plan = Arc::new(Plan::Square(FrameSquareOscExec::new(&square_config())));
    let mut stream = open(&plan, &mut Vec::new());
    let batches = (0..3).map(|_| stream().unwrap().unwrap()).collect::<Vec<_>>();
    assert_eq!(row_counts(&batches), [4, 4, 4]);
    let restarted = open(&plan, &mut Vec::new())().unwrap().unwrap();
    for column in 0..2 {
        assert_eq!(
            batches[0].batch.column(column).to_data(),
            restarted.batch.column(column).to_data()
        );
    }
    assert_eq!(frames_of(&batches[2]), [8, 9, 10, 11]);
}

#[test]
fn square_source_exposes_leaf_plan_contract() {
    let make = || FrameSquareOscExec::new(&square_config());
    let exec = make();
    assert_eq!(exec.name(), "FrameSquareOscExec");
    assert!(exec.children().is_empty());
    assert!(make().with_new_children(vec![]).is_ok());
    assert!(make().with_new_children(vec![Arc::new(Plan::Square(make()))]).is_err());
    let display = exec.describe(DisplayFormat::Default);
    assert!(display.contains("frequency=2hz, pulse_width=0.25"), "{display}");
    assert_eq!(
        exec.describe(DisplayFormat::Verbose),
        "FrameSquareOscExec: frequency=2hz, pulse_width=0.25, sample_rate=8hz, batch_frame_capacity=4"
    );
    assert_eq!(
        exec.describe(DisplayFormat::Tree),
        "frequency=2hz\npulse_width=0.25\nsample_rate=8hz\nbatch_frame_capacity=4"
    );
    let plan = Plan::Square(exec);
    check_source_properties(&plan);
    let schema = &plan.properties().schema;
    assert_eq!(schema.field(0).data_type(), &DataType::UInt64);
    assert_eq!(schema.field(1).data_type(), &DataType::Float32);
    assert_eq!(schema.metadata().get("audio.sample_rate_hz").map(String::as_str), Some("8"));
}

#[test]
fn square_source_rejects_nonzero_partition() {
    let exec = FrameSquareOscExec::new(&square_config());
    let error = exec.execute(1).err().unwrap();
    assert!(error.to_string().contains("supports only partition 0, got 1"));
}

#[test]
fn square_source_validates_its_own_values() {
    let config = square_config();
    let make = |frequency: f64, width: f64| {
        FrameSquareOscExec::try_new(&config, double(frequency), double(width))
    };
    assert!(make(1.0, 1.0).is_ok());
    assert!(matches!(
        make(4.0, 0.5),
        Err(NodeError::Plan(message))
            if message == "frequency_hz must be below Nyquist (4 Hz for sample_rate_hz 8)"
    ));
    assert!(matches!(
        make(1.0, 1.5),
        Err(NodeError::Plan(message))
            if message == "pulse_width must be finite and between 0 and 1 inclusive"
    ));
}

#[test]
fn oscillator_batches_are_contiguous() {
    let huge = RenderConfig::builder()
        .sample_rate_hz(8)
        .frame_count(8)
        .frequency_hz(double(1.0))
        .batch_frame_capacity(3)
        .build()
        .unwrap();
    let node = FrameSquareOscExec::new(&huge);
    let mut run = node.execute(0).unwrap();
    for expected in [[0, 1, 2], [3, 4, 5]] {
        assert_eq!(frames_of(&run.next_batch().unwrap()), expected);
    }
}

// Validation shared by the nodes.

#[test]
fn frequencies_and_samples_are_checked_by_name() {
    assert!(validate_frequency(double(3.99), 8, "cutoff_hz").is_ok());
    assert_eq!(
        validate_frequency(double(-1.0), 8, "cutoff_hz").unwrap_err().to_string(),
        "Error during planning: cutoff_hz must be greater than or equal to 0"
    );
    assert_eq!(
        validate_frequency(double(f64::NAN), 8, "cutoff_hz").unwrap_err().to_string(),
        "Error during planning: cutoff_hz must be finite"
    );
    assert!(validate_sample(single(1.0), 0, "input").is_ok());
    assert!(validate_sample(single(-1.0), 0, "input").is_ok());
    assert_eq!(
        validate_sample(single(1.5), 9, "input").unwrap_err().to_string(),
        "Execution error: input has an out-of-range sample at frame 9: 1.5"
    );
    assert_eq!(
        validate_sample(single(f32::NEG_INFINITY), 9, "input").unwrap_err().to_string(),
        "Execution error: input has a non-finite sample at frame 9: -inf"
    );
}

#[test]
fn frame_plans_need_the_frame_schema() {
    let config = test_config();
    let other = RenderConfig::default();
    let plan = sine(&config, 1.0);
    let signal = FramePlan::try_from_plan(&config, Arc::clone(&plan)).unwrap();
    assert!(Arc::ptr_eq(&signal.into_plan(), &plan));
    match FramePlan::try_from_plan(&other, plan) {
        Err(NodeError::Plan(message)) => {
            assert!(message.starts_with("FramePlan expected schema "), "{message}");
            assert!(message.contains(", but got "), "{message}");
        }
        _ => panic!("expected a plan error"),
    }
}

// Renders.

#[test]
fn successful_real_render_is_decoded_once_into_canonical_samples() {
    let config = tuned_config();
    let node = FrameGainExec::try_new(&config, sine(&config, 2.0), config.gain()).unwrap();
    let plan = limit(Arc::new(Plan::Gain(node)), 10);
    let batches = collect(&plan).expect("bounded render should collect successfully");

    assert_samples_approximately_equal(
        &decoded(&batches, &config),
        &[0.0, 0.5, 0.0, -0.5, 0.0, 0.5, 0.0, -0.5, 0.0, 0.5],
    );
}

#[test]
fn truncated_render_reports_the_first_missing_frame() {
    let config = tuned_config();
    let batches = collect(&gain_limit_plan(&config, 0.5))
        .expect("bounded render should collect successfully");

    let error = decode_from_frames(&batches[..2], &config)
        .expect_err("truncated batches should be rejected");

    assert!(error.to_string().contains("first missing frame is 8"));
}

// Graphs from text.

#[test]
fn weighted_branches_match_the_rust_plan() {
    let config = RenderConfig::builder()
        .sample_rate_hz(8)
        .frame_count(8)
        .batch_frame_capacity(3)
        .build()
        .unwrap();
    let graph = "sine(1) -> $A; sine(2) -> $B; \
                 mix([$A, $B], [0.4, 0.6]) -> lpf(3) -> gain(0.5) -> out";
    let parsed = build_plan(graph, &config).unwrap();
    let mix = Arc::new(Plan::Mix(
        FrameMixExec::try_new(
            &config,
            vec![sine(&config, 1.0), sine(&config, 2.0)],
            singles(&[0.4, 0.6]),
        )
        .unwrap(),
    ));
    let filter = Arc::new(Plan::LowPass(filter(&config, mix, 3.0)));
    let gain =
        Arc::new(Plan::Gain(FrameGainExec::try_new(&config, filter, single(0.5)).unwrap()));
    let expected = limit(gain, 8);
    assert_eq!(
        decoded(&collect(&parsed).unwrap(), &config),
        decoded(&collect(&expected).unwrap(), &config)
    );
}

#[test]
fn implicit_and_explicit_unary_inputs_are_equivalent() {
    let config = RenderConfig::builder()
        .sample_rate_hz(8)
        .frame_count(8)
        .build()
        .unwrap();
    let chained = build_plan("sine(1) -> gain(0.5) -> out", &config).unwrap();
    let referenced = build_plan("sine(1) -> $A; gain($A, 0.5) -> out", &config).unwrap();
    assert_eq!(
        decoded(&collect(&chained).unwrap(), &config),
        decoded(&collect(&referenced).unwrap(), &config)
    );
}
