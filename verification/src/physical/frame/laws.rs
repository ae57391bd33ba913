//! How nodes and the decoder fit together.
use crate::arrow::{batch_frames, batch_samples, present, FrameBatch};
use crate::ieee::number::Single;
use crate::physical::frame::gain::{amplified, gain_saturates};
use crate::physical::frame::node::{cell_values, frame_run, normalized};
use crate::render::{
    complete, in_order, is_frame_batch, joined_frames, joined_samples, sample_values,
};
use vstd::prelude::*;

verus! {

/// Whether a batch holds the frames from `from` up to `to`, each with a finite sample.
pub open spec fn holds_run(batch: FrameBatch, from: u64, to: u64, sample_rate_hz: u32) -> bool {
    &&& is_frame_batch(batch, sample_rate_hz)
    &&& batch_frames(batch) == present(frame_run(from, to))
    &&& batch_samples(batch).len() == batch_frames(batch).len()
    &&& forall|i: int|
        0 <= i < batch_samples(batch).len() ==> (#[trigger] batch_samples(batch)[i]).is_some()
            && batch_samples(batch)[i].unwrap().finite()
}

/// Whether batches follow each other from the first frame on, the one with index `i`
/// from `starts[i]` up to `starts[i + 1]`.
pub open spec fn follow_each_other(
    batches: Seq<FrameBatch>,
    starts: Seq<u64>,
    sample_rate_hz: u32,
) -> bool {
    &&& starts.len() == batches.len() + 1
    &&& starts[0] == 0
    &&& forall|i: int| 0 <= i < batches.len() ==> #[trigger] starts[i] <= starts[i + 1]
    &&& forall|i: int|
        0 <= i < batches.len() ==> holds_run(
            #[trigger] batches[i],
            starts[i],
            starts[i + 1],
            sample_rate_hz,
        )
}

/// The decoder takes what an oscillator hands out: batches that follow each other from
/// the first frame on are a complete render.
pub proof fn contiguous_batches_are_complete(
    batches: Seq<FrameBatch>,
    starts: Seq<u64>,
    sample_rate_hz: u32,
)
    requires
        follow_each_other(batches, starts, sample_rate_hz),
    ensures
        complete(batches, sample_rate_hz, starts.last()),
    decreases batches.len(),
{
    if batches.len() > 0 {
        let rest = batches.drop_last();
        let before = starts.drop_last();
        let last = batches.last();
        let n = rest.len() as int;
        assert(follow_each_other(rest, before, sample_rate_hz)) by {
            assert forall|i: int| 0 <= i < rest.len() implies #[trigger] before[i] <= before[i
                + 1] by {
                assert(starts[i] <= starts[i + 1]);
            }
            assert forall|i: int| 0 <= i < rest.len() implies holds_run(
                #[trigger] rest[i],
                before[i],
                before[i + 1],
                sample_rate_hz,
            ) by {
                assert(holds_run(batches[i], starts[i], starts[i + 1], sample_rate_hz));
            }
        }
        contiguous_batches_are_complete(rest, before, sample_rate_hz);
        assert(holds_run(batches[n], starts[n], starts[n + 1], sample_rate_hz));
        assert(starts[n] <= starts[n + 1]);
        assert(before.last() == starts[n]);
        let frames = joined_frames(batches);
        let samples = joined_samples(batches);
        let base = starts[n] as int;
        assert(joined_frames(rest).len() == base);
        assert forall|i: int| 0 <= i < frames.len() implies (#[trigger] frames[i]).is_some()
            && frames[i].unwrap() == i by {
            if i >= base {
                assert(frames[i] == batch_frames(last)[i - base]);
            } else {
                assert(frames[i] == joined_frames(rest)[i]);
            }
        }
        assert forall|i: int| 0 <= i < samples.len() implies (#[trigger] samples[i]).is_some()
            && samples[i].unwrap().finite() by {
            if i >= base {
                assert(samples[i] == batch_samples(last)[i - base]);
            } else {
                assert(samples[i] == joined_samples(rest)[i]);
            }
        }
        assert forall|i: int| 0 <= i < batches.len() implies is_frame_batch(
            #[trigger] batches[i],
            sample_rate_hz,
        ) by {
            if i < n {
                assert(rest[i] == batches[i]);
                assert(is_frame_batch(rest[i], sample_rate_hz));
            }
        }
    }
}

/// Whether each output is what a gain makes of its input.
pub open spec fn amplified_batches(
    inputs: Seq<FrameBatch>,
    outputs: Seq<FrameBatch>,
    factor: Single,
    sample_rate_hz: u32,
) -> bool {
    &&& inputs.len() == outputs.len()
    &&& forall|i: int|
        0 <= i < outputs.len() ==> {
            &&& is_frame_batch(#[trigger] outputs[i], sample_rate_hz)
            &&& batch_frames(outputs[i]) == batch_frames(inputs[i])
            &&& batch_samples(outputs[i]) == present(
                cell_values(batch_samples(inputs[i])).map_values(
                    |sample: Single| amplified(sample, factor),
                ),
            )
        }
}

/// What a gain makes of the rows of some batches.
proof fn lemma_amplified_rows(
    inputs: Seq<FrameBatch>,
    outputs: Seq<FrameBatch>,
    factor: Single,
    sample_rate_hz: u32,
)
    requires
        amplified_batches(inputs, outputs, factor, sample_rate_hz),
    ensures
        joined_frames(outputs) == joined_frames(inputs),
        joined_samples(outputs) == present(
            cell_values(joined_samples(inputs)).map_values(
                |sample: Single| amplified(sample, factor),
            ),
        ),
    decreases inputs.len(),
{
    let scale = |sample: Single| amplified(sample, factor);
    if inputs.len() == 0 {
        assert(joined_samples(outputs) =~= present(
            cell_values(joined_samples(inputs)).map_values(scale),
        ));
    } else {
        let n = inputs.len() - 1;
        assert forall|i: int| 0 <= i < n implies {
            &&& is_frame_batch(#[trigger] outputs.drop_last()[i], sample_rate_hz)
            &&& batch_frames(outputs.drop_last()[i]) == batch_frames(inputs.drop_last()[i])
            &&& batch_samples(outputs.drop_last()[i]) == present(
                cell_values(batch_samples(inputs.drop_last()[i])).map_values(scale),
            )
        } by {
            assert(outputs.drop_last()[i] == outputs[i]);
        }
        lemma_amplified_rows(inputs.drop_last(), outputs.drop_last(), factor, sample_rate_hz);
        assert(is_frame_batch(outputs[n], sample_rate_hz));
        assert(joined_samples(outputs) =~= present(
            cell_values(joined_samples(inputs)).map_values(scale),
        ));
    }
}

/// A gain keeps a complete render complete, and every sample of it then lies in [-1, 1].
pub proof fn gain_keeps_a_render_complete(
    inputs: Seq<FrameBatch>,
    outputs: Seq<FrameBatch>,
    factor: Single,
    sample_rate_hz: u32,
    frame_count: u64,
)
    requires
        factor.finite(),
        complete(inputs, sample_rate_hz, frame_count),
        amplified_batches(inputs, outputs, factor, sample_rate_hz),
    ensures
        complete(outputs, sample_rate_hz, frame_count),
        sample_values(joined_samples(outputs)) == sample_values(joined_samples(inputs)).map_values(
            |sample: Single| amplified(sample, factor),
        ),
        forall|i: int|
            0 <= i < joined_samples(outputs).len() ==> normalized(
                (#[trigger] joined_samples(outputs)[i]).unwrap(),
            ),
{
    let scale = |sample: Single| amplified(sample, factor);
    lemma_amplified_rows(inputs, outputs, factor, sample_rate_hz);
    let before = joined_samples(inputs);
    let after = joined_samples(outputs);
    assert forall|i: int| 0 <= i < after.len() implies (#[trigger] after[i]).is_some()
        && after[i].unwrap().finite() && normalized(after[i].unwrap()) by {
        assert(before[i].is_some() && before[i].unwrap().finite());
        assert(after[i] == Some(amplified(before[i].unwrap(), factor)));
        gain_saturates(before[i].unwrap(), factor);
    }
    assert(in_order(joined_frames(outputs), after));
    assert(sample_values(after) =~= sample_values(before).map_values(scale));
}

} // verus!
