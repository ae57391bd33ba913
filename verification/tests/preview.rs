use std::sync::Arc;

use datafusion::arrow::array::{Float32Array, RecordBatch, UInt64Array};
use sonicfusion::arrow::FrameBatch;
use sonicfusion::frame_schema;
use sonicfusion::ieee::number::Double;
use sonicfusion::preview::{
    config_for, decode_first_batch, frame_count, next_value, parse_options, preview_config, usage,
    Arguments, Invocation, Options, PreviewError, PreviewRender,
};

fn double(value: f64) -> Double {
    Double { bits: value.to_bits() }
}

fn parse(args: &[&str], os: &str) -> Result<Invocation, PreviewError> {
    let args = args.iter().map(|arg| arg.to_string()).collect();
    parse_options(args, os, "target/preview".to_string())
}

fn options(args: &[&str], os: &str) -> Options {
    match parse(args, os) {
        Ok(Invocation::Run(options)) => options,
        Ok(Invocation::Help) => panic!("expected a preview"),
        Err(error) => panic!("{}", error.to_string()),
    }
}

fn message(args: &[&str], os: &str) -> String {
    parse(args, os).unwrap_err().to_string()
}

#[test]
fn without_arguments_a_second_is_played_by_the_default_player() {
    let linux = options(&[], "linux");
    assert_eq!(linux.seconds, double(1.0));
    assert!(!linux.waveform);
    assert_eq!(linux.graph, None);
    assert_eq!(linux.output_dir, "target/preview");
    assert_eq!(linux.player, "ffplay");
    assert_eq!(linux.player_args, ["-nodisp", "-autoexit"]);
    let mac = options(&["--player-arg", "-v"], "macos");
    assert_eq!(mac.player, "afplay");
    assert_eq!(mac.player_args, ["-v"]);
}

#[test]
fn every_option_is_read() {
    let chosen = options(
        &[
            "--seconds", "0.5", "--waveform", "--output-dir", "out", "--player", "play",
            "--player-arg", "-a", "--player-arg", "--waveform", "--graph", "g.sf",
        ],
        "plan9",
    );
    assert_eq!(chosen.seconds, double(0.5));
    assert!(chosen.waveform);
    assert_eq!(chosen.output_dir, "out");
    assert_eq!(chosen.player, "play");
    assert_eq!(chosen.player_args, ["-a", "--waveform"]);
    assert_eq!(chosen.graph.as_deref(), Some("g.sf"));
    let extra = options(&["--player-arg", "-x"], "linux");
    assert_eq!(extra.player_args, ["-nodisp", "-autoexit", "-x"]);
}

#[test]
fn wrong_arguments_are_explained() {
    assert_eq!(message(&["--seconds"], "linux"), "argument error: missing value for --seconds");
    assert_eq!(message(&["--player"], "linux"), "argument error: missing value for --player");
    assert_eq!(
        message(&["--seconds", "a\"b"], "linux"),
        "argument error: invalid --seconds value \"a\\\"b\""
    );
    assert_eq!(
        message(&["--loud\t"], "linux"),
        format!("argument error: unknown option \"--loud\\t\"\n{}", usage())
    );
    for seconds in ["0", "-1", "inf", "nan", "-0"] {
        assert_eq!(
            message(&["--seconds", seconds], "linux"),
            "argument error: --seconds must be a positive finite number"
        );
    }
    assert_eq!(
        message(&[], "plan9"),
        "argument error: no default player for this platform; pass --player COMMAND"
    );
}

#[test]
fn help_is_given_as_soon_as_it_is_asked_for() {
    assert!(matches!(parse(&["--help"], "plan9"), Ok(Invocation::Help)));
    assert!(matches!(parse(&["--seconds", "-1", "-h", "--bad"], "linux"), Ok(Invocation::Help)));
    assert!(matches!(parse(&["--bad", "-h"], "linux"), Err(PreviewError::Arguments(_))));
    assert!(usage().starts_with("Usage: scripts/preview "));
    assert!(usage().contains("[--seconds SECONDS] [--waveform] [--output-dir DIR]"));
    assert!(usage().contains("[--player COMMAND] [--player-arg ARG]...\nDefault player: afplay"));
}

#[test]
fn values_are_read_one_by_one() {
    let mut args = Arguments { values: vec!["a".to_string(), "b".to_string()], next: 0 };
    assert_eq!(next_value(&mut args, "--x").unwrap(), "a");
    assert_eq!(next_value(&mut args, "--x").unwrap(), "b");
    assert_eq!(
        next_value(&mut args, "--x").unwrap_err().to_string(),
        "argument error: missing value for --x"
    );
}

#[test]
fn seconds_are_rounded_to_frames() {
    for (seconds, rate) in [
        (1.0, 48_000),
        (0.5, 48_000),
        (0.5, 1),
        (1.5, 1),
        (2.5, 1),
        (0.49999999999999994, 1),
        (0.00001, 48_000),
        (0.0000104, 48_000),
        (0.0000105, 48_000),
        (1e10, 4_294_967_295),
        (1e15, 4_294_967_295),
        (4503599627370497.5, 1),
        (-1.0, 48_000),
        (1e300, 48_000),
        (f64::INFINITY, 48_000),
        (18446744073709551616.0, 1),
        (18446744073709549568.0, 1),
        (18446744073709555712.0, 1),
        (f64::NAN, 48_000),
        (5e-324, 1),
        (0.0, 8),
    ] {
        let frames = (seconds * f64::from(rate)).round();
        let got = frame_count(double(seconds), rate);
        if frames < 1.0 || frames > u64::MAX as f64 {
            assert_eq!(
                got.unwrap_err().to_string(),
                "argument error: --seconds must produce at least one frame and fit a u64 frame count"
            );
        } else {
            assert_eq!(got.unwrap(), frames as u64, "{seconds} s at {rate} Hz");
        }
    }
}

#[test]
fn previews_are_configured_from_their_length() {
    assert_eq!(preview_config(double(0.25)).unwrap().frame_count(), 12_000);
    assert_eq!(
        preview_config(double(61.0)).unwrap_err().to_string(),
        "argument error: invalid configuration: frame_count 2928000 exceeds configured maximum 2880000 (48000 Hz × 60 s)"
    );
    assert!(preview_config(double(1e-9)).is_err());
    assert!(config_for(0).is_err());
}

#[test]
fn the_first_batch_is_decoded_by_itself() {
    let config = config_for(2).unwrap();
    let batch = |frames: Vec<u64>| {
        let samples = Float32Array::from(vec![0.5; frames.len()]);
        let batch = RecordBatch::try_new(
            frame_schema(&config),
            vec![Arc::new(UInt64Array::from(frames)), Arc::new(samples)],
        )
        .unwrap();
        FrameBatch { batch }
    };
    assert_eq!(decode_first_batch(&batch(vec![0, 1, 2])).unwrap().len(), 3);
    assert_eq!(
        decode_first_batch(&batch(vec![1])).unwrap_err().to_string(),
        "sample validation error: invalid render: discontinuous frame sequence in batch 0 row 0: expected frame 0, got 1"
    );
    assert_eq!(
        decode_first_batch(&batch(vec![])).unwrap_err().to_string(),
        "argument error: invalid configuration: frame_count must be greater than 0"
    );
}

#[test]
fn a_preview_decodes_its_first_rows_at_once_and_all_of_them_in_the_end() {
    let config = config_for(3).unwrap();
    let batch = |frames: Vec<u64>| {
        let samples = Float32Array::from(vec![0.5; frames.len()]);
        let batch = RecordBatch::try_new(
            frame_schema(&config),
            vec![Arc::new(UInt64Array::from(frames)), Arc::new(samples)],
        )
        .unwrap();
        FrameBatch { batch }
    };
    let mut render = PreviewRender::new();
    assert!(!render.take(batch(vec![])).unwrap());
    assert!(render.take(batch(vec![7])).is_err());
    assert!(render.take(batch(vec![0, 1])).unwrap());
    assert!(!render.take(batch(vec![2])).unwrap());
    assert_eq!(render.finish(&config).unwrap().len(), 3);
    let longer = config_for(4).unwrap();
    assert_eq!(
        render.finish(&longer).unwrap_err().to_string(),
        "sample validation error: invalid render: frame render ended early: first missing frame is 3; expected coverage 0..4"
    );
}
