//! Recording samples as WAV.
use crate::arrow::{batch_samples, FrameBatch};
use crate::config::RenderConfig;
use crate::error::{invalid_render, Error, Result};
use crate::ieee::number::Single;
use crate::output::{unwritable, validate_samples, writable};
use crate::render::{sample_values, Decoding, FrameDecoder};
use crate::text::{decimal, decimal_text};
use std::time::Duration;
use vstd::prelude::*;

verus! {

/// Timing relative to entering the streaming writer.
#[derive(Debug, Clone, Copy)]
pub struct StreamingWavStats {
    /// When the first samples were decoded.
    pub first_decoded_batch: Duration,
}

/// How a WAV file stores its samples.
#[derive(Clone, Copy, Debug, PartialEq, Eq, Structural)]
pub enum SampleFormat {
    /// As floating-point numbers.
    Float,
    /// As whole numbers.
    Int,
}

/// What a WAV file says of its samples.
#[derive(Clone, Copy, Debug, PartialEq, Eq, Structural)]
pub struct WavSpec {
    /// How many channels there are.
    pub channels: u16,
    /// Frames per second.
    pub sample_rate: u32,
    /// How many bits a sample takes.
    pub bits_per_sample: u16,
    /// How samples are stored.
    pub sample_format: SampleFormat,
}

/// Renders are recorded as they are: one channel of single-precision numbers.
pub fn wav_spec(config: &RenderConfig) -> (spec: WavSpec)
    ensures
        spec == (WavSpec {
            channels: 1,
            sample_rate: config@.sample_rate_hz,
            bits_per_sample: 32,
            sample_format: SampleFormat::Float,
        }),
{
    WavSpec {
        channels: 1,
        sample_rate: config.sample_rate_hz(),
        bits_per_sample: 32,
        sample_format: SampleFormat::Float,
    }
}

/// Checks the samples of a whole recording before its file is made. They may lie outside
/// [-1, 1]: they are recorded without being changed.
pub fn prepare_wav(samples: &[Single], config: &RenderConfig) -> (r: Result<WavSpec>)
    ensures
        r.is_ok() == writable(samples@, config@.frame_count, false),
        r matches Ok(spec) ==> spec == (WavSpec {
            channels: 1,
            sample_rate: config@.sample_rate_hz,
            bits_per_sample: 32,
            sample_format: SampleFormat::Float,
        }),
        r matches Err(error) ==> error matches Error::InvalidRender(reason) && unwritable(
            samples@,
            config@.frame_count,
            false,
            reason@,
        ),
{
    validate_samples(samples, config, false)?;
    Ok(wav_spec(config))
}

/// What is attempted when a sample is written.
pub fn write_frame_action(frame: u64) -> (action: String)
    ensures
        action@ == "write frame "@ + decimal(frame as nat) + " to"@,
{
    "write frame ".to_owned().concat(decimal_text(frame).as_str()).concat(" to")
}

/// Reports that a WAV file could not be written.
pub fn wav_error(action: String, path: String, source: String) -> (error: Error)
    ensures
        error == (Error::WavError { action, path, source }),
{
    Error::WavError { action, path, source }
}

/// How far a recording has come.
pub struct Recording {
    /// What was decoded.
    pub decoding: Decoding,
    /// When the first samples were decoded.
    pub first: Option<Duration>,
}

/// Checks the batches of a recording as they come in, and keeps when the first samples
/// came.
pub struct WavRecorder {
    decoder: FrameDecoder,
    first: Option<Duration>,
}

impl View for WavRecorder {
    type V = Recording;

    closed spec fn view(&self) -> Recording {
        Recording { decoding: self.decoder@, first: self.first }
    }
}

impl WavRecorder {
    /// Samples came exactly where frames were decoded.
    #[verifier::type_invariant]
    spec fn wf(self) -> bool {
        &&& self.first.is_some() == (self.decoder@.next_frame > 0)
        &&& self.decoder@.frame_count > 0
    }

    /// Starts at the first frame.
    pub fn new(config: &RenderConfig) -> (recorder: WavRecorder)
        ensures
            recorder@ == (Recording {
                decoding: Decoding {
                    sample_rate_hz: config@.sample_rate_hz,
                    frame_count: config@.frame_count,
                    next_frame: 0,
                    batch_index: 0,
                },
                first: None,
            }),
    {
        WavRecorder { decoder: FrameDecoder::new(config), first: None }
    }

    /// Takes a batch, `elapsed` after the start, and gives the samples to be written. A
    /// refused batch ends the recording.
    pub fn record(self, batch: &FrameBatch, elapsed: Duration) -> (r: Result<
        (WavRecorder, Vec<Single>),
    >)
        ensures
            r.is_ok() == self@.decoding.accepts(*batch),
            r matches Ok((recorder, samples)) ==> {
                &&& samples@ == sample_values(batch_samples(*batch))
                &&& recorder@.decoding.next_frame == self@.decoding.next_frame + samples@.len()
                &&& recorder@.decoding.frame_count == self@.decoding.frame_count
                &&& recorder@.decoding.sample_rate_hz == self@.decoding.sample_rate_hz
                &&& recorder@.decoding.batch_index == self@.decoding.batch_index + 1
                    || self@.decoding.batch_index == u64::MAX && recorder@.decoding.batch_index
                    == u64::MAX
                &&& recorder@.first == if self@.first.is_none() && samples@.len() > 0 {
                    Some(elapsed)
                } else {
                    self@.first
                }
            },
            r matches Err(error) ==> error matches Error::InvalidRender(reason)
                && self@.decoding.refuses(*batch, reason@),
    {
        proof {
            use_type_invariant(&self);
        }
        let first: Option<Duration> = self.first;
        let mut decoder: FrameDecoder = self.decoder;
        let samples: Vec<Single> = decoder.decode_batch(batch)?;
        let first: Option<Duration> = if first.is_none() && samples.len() > 0 {
            Some(elapsed)
        } else {
            first
        };
        Ok((WavRecorder { decoder, first }, samples))
    }

    /// Checks that every frame came.
    pub fn finish(self) -> (r: Result<StreamingWavStats>)
        ensures
            r.is_ok() == (self@.decoding.next_frame == self@.decoding.frame_count),
            r matches Ok(stats) ==> self@.first == Some(stats.first_decoded_batch),
            r matches Err(error) ==> invalid_render(error, self@.decoding.early_end()),
    {
        proof {
            use_type_invariant(&self);
        }
        self.decoder.finish()?;
        match self.first {
            Some(first_decoded_batch) => Ok(StreamingWavStats { first_decoded_batch }),
            None => Err(Error::InvalidRender("no batch was decoded".to_owned())),
        }
    }
}

} // verus!
