//! What becomes of rendered samples.
pub mod drawing_laws;
pub mod picture;
pub mod wav;
pub mod waveform;

use crate::arrow::{single_text, single_to_text};
use crate::config::RenderConfig;
use crate::error::{Error, Result};
use crate::ieee::number::Single;
use crate::physical::frame::node::{is_normalized, normalized};
use crate::render::platform_index;
use crate::text::{decimal, decimal_text};
use vstd::prelude::*;

verus! {

/// What is wrong with the first faulty sample from `from` on; where `ranged` is not set,
/// samples may lie outside [-1, 1].
pub open spec fn sample_fault_from(samples: Seq<Single>, ranged: bool, from: nat) -> Option<
    Seq<char>,
>
    decreases samples.len() - from,
{
    if from >= samples.len() {
        None
    } else if !samples[from as int].finite() {
        Some(
            "cannot write non-finite sample at frame "@ + decimal(from) + ": "@ + single_text(
                samples[from as int].bits,
            ),
        )
    } else if ranged && !normalized(samples[from as int]) {
        Some(
            "cannot write out-of-range sample at frame "@ + decimal(from) + ": "@ + single_text(
                samples[from as int].bits,
            ),
        )
    } else {
        sample_fault_from(samples, ranged, from + 1)
    }
}

/// Whether samples can be written: as many as configured, and each as it should be.
pub open spec fn writable(samples: Seq<Single>, frame_count: u64, ranged: bool) -> bool {
    &&& frame_count <= usize::MAX
    &&& samples.len() == frame_count
    &&& sample_fault_from(samples, ranged, 0).is_none()
}

/// What is said of more samples than an index can count; the conversion's error is shown.
pub open spec fn sample_index_overflow(frame_count: u64, source: Seq<char>) -> Seq<char> {
    "configured frame count "@ + decimal(frame_count as nat)
        + " does not fit this platform's usize sample index (maximum "@ + decimal(
        usize::MAX as nat,
    ) + "): "@ + source
}

/// Whether this is why samples cannot be written.
pub open spec fn unwritable(
    samples: Seq<Single>,
    frame_count: u64,
    ranged: bool,
    reason: Seq<char>,
) -> bool {
    if frame_count > usize::MAX {
        exists|source: Seq<char>| reason == sample_index_overflow(frame_count, source)
    } else if samples.len() != frame_count {
        reason == "sample count does not match configured frame count: expected "@ + decimal(
            frame_count as nat,
        ) + ", got "@ + decimal(samples.len())
    } else {
        sample_fault_from(samples, ranged, 0) == Some(reason)
    }
}

/// Checks that samples can be written.
pub fn validate_samples(samples: &[Single], config: &RenderConfig, ranged: bool) -> (r: Result<()>)
    ensures
        r.is_ok() == writable(samples@, config@.frame_count, ranged),
        r matches Err(error) ==> error matches Error::InvalidRender(reason) && unwritable(
            samples@,
            config@.frame_count,
            ranged,
            reason@,
        ),
{
    let frame_count: u64 = config.frame_count();
    let expected: usize = match platform_index(frame_count) {
        Ok(expected) => expected,
        Err(source) => {
            let reason: String = "configured frame count ".to_owned().concat(
                decimal_text(frame_count).as_str(),
            ).concat(" does not fit this platform's usize sample index (maximum ").concat(
                decimal_text(usize::MAX as u64).as_str(),
            ).concat("): ").concat(source.as_str());
            assert(reason@ == sample_index_overflow(frame_count, source@));
            return Err(Error::InvalidRender(reason));
        },
    };
    if samples.len() != expected {
        return Err(
            Error::InvalidRender(
                "sample count does not match configured frame count: expected ".to_owned().concat(
                    decimal_text(frame_count).as_str(),
                ).concat(", got ").concat(decimal_text(samples.len() as u64).as_str()),
            ),
        );
    }
    let mut frame: usize = 0;
    while frame < samples.len()
        invariant
            frame <= samples@.len(),
            samples@.len() == config@.frame_count,
            config@.frame_count <= usize::MAX,
            sample_fault_from(samples@, ranged, 0) == sample_fault_from(
                samples@,
                ranged,
                frame as nat,
            ),
        decreases samples@.len() - frame,
    {
        let sample: Single = samples[frame];
        if !sample.is_finite() {
            return Err(
                Error::InvalidRender(
                    "cannot write non-finite sample at frame ".to_owned().concat(
                        decimal_text(frame as u64).as_str(),
                    ).concat(": ").concat(single_to_text(sample).as_str()),
                ),
            );
        }
        if ranged && !is_normalized(sample) {
            return Err(
                Error::InvalidRender(
                    "cannot write out-of-range sample at frame ".to_owned().concat(
                        decimal_text(frame as u64).as_str(),
                    ).concat(": ").concat(single_to_text(sample).as_str()),
                ),
            );
        }
        frame += 1;
    }
    Ok(())
}

/// Samples that can be written are all as they should be.
pub proof fn writable_samples_are_sound(
    samples: Seq<Single>,
    frame_count: u64,
    ranged: bool,
    index: int,
)
    requires
        writable(samples, frame_count, ranged),
        0 <= index < samples.len(),
    ensures
        samples[index].finite(),
        ranged ==> normalized(samples[index]),
{
    lemma_no_fault_from(samples, ranged, 0);
}

/// Without a fault every sample is as it should be.
proof fn lemma_no_fault_from(samples: Seq<Single>, ranged: bool, from: nat)
    requires
        sample_fault_from(samples, ranged, from).is_none(),
    ensures
        forall|i: int|
            from <= i < samples.len() ==> (#[trigger] samples[i]).finite() && (ranged
                ==> normalized(samples[i])),
    decreases samples.len() - from,
{
    if from < samples.len() {
        lemma_no_fault_from(samples, ranged, from + 1);
    }
}

} // verus!
