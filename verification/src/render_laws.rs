//! What a render is made of.
use crate::arrow::{batch_frames, batch_samples, single_text, FrameBatch};
use crate::ieee::number::Single;
use crate::output::{sample_fault_from, writable};
use crate::physical::frame::gain::gain_fault;
use crate::physical::frame::node::{normalized, sample_fault};
use crate::render::{
    complete, is_frame_batch, joined_frames, joined_samples, row_fault, rows_fault, sample_values,
    well_shaped, Decoding,
};
use crate::text::decimal;
use vstd::prelude::*;

verus! {

/// How many rows come before a batch.
pub open spec fn rows_before(batches: Seq<FrameBatch>, index: nat) -> nat
    decreases index,
{
    if index == 0 {
        0
    } else {
        rows_before(batches, (index - 1) as nat) + batch_frames(batches[index - 1]).len()
    }
}

/// Where the rows of a batch stand among all rows.
proof fn lemma_joined(batches: Seq<FrameBatch>, index: int, row: int)
    requires
        well_shaped(batches),
        0 <= index < batches.len(),
        0 <= row < batch_frames(batches[index]).len(),
    ensures
        joined_frames(batches).len() == joined_samples(batches).len(),
        joined_frames(batches).len() == rows_before(batches, batches.len()),
        0 <= rows_before(batches, index as nat) + row < joined_frames(batches).len(),
        joined_frames(batches)[rows_before(batches, index as nat) + row] == batch_frames(
            batches[index],
        )[row],
        joined_samples(batches)[rows_before(batches, index as nat) + row] == batch_samples(
            batches[index],
        )[row],
    decreases batches.len(),
{
    let less = batches.drop_last();
    let last = batches.last();
    lemma_joined_length(less);
    lemma_rows_before_prefix(batches, less, less.len());
    lemma_rows_before_prefix(batches, less, index as nat);
    assert(batch_frames(last).len() == batch_samples(last).len());
    assert(well_shaped(less)) by {
        assert forall|i: int| 0 <= i < less.len() implies batch_frames(#[trigger] less[i]).len()
            == batch_samples(less[i]).len() by {
            assert(less[i] == batches[i]);
        }
    }
    if index < batches.len() - 1 {
        assert(less[index] == batches[index]);
        lemma_joined(less, index, row);
    }
}

/// As many frames as samples.
proof fn lemma_joined_length(batches: Seq<FrameBatch>)
    requires
        well_shaped(batches),
    ensures
        joined_frames(batches).len() == joined_samples(batches).len(),
        joined_frames(batches).len() == rows_before(batches, batches.len()),
    decreases batches.len(),
{
    if batches.len() > 0 {
        let less = batches.drop_last();
        assert(well_shaped(less)) by {
            assert forall|i: int| 0 <= i < less.len() implies batch_frames(
                #[trigger] less[i],
            ).len() == batch_samples(less[i]).len() by {
                assert(less[i] == batches[i]);
            }
        }
        lemma_joined_length(less);
        lemma_rows_before_prefix(batches, less, less.len());
        assert(batch_frames(batches[batches.len() - 1]).len() == batch_samples(
            batches[batches.len() - 1],
        ).len());
    }
}

/// What comes before a batch does not depend on what follows.
proof fn lemma_rows_before_prefix(batches: Seq<FrameBatch>, less: Seq<FrameBatch>, index: nat)
    requires
        index <= less.len() <= batches.len(),
        forall|i: int| 0 <= i < less.len() ==> #[trigger] less[i] == batches[i],
    ensures
        rows_before(batches, index) == rows_before(less, index),
    decreases index,
{
    if index > 0 {
        lemma_rows_before_prefix(batches, less, (index - 1) as nat);
        assert(less[index - 1] == batches[index - 1]);
    }
}

/// The sample of a frame in a complete render is the one in the row of that frame,
/// whichever batch it came in: no sample is moved, changed, added or left out.
pub proof fn a_render_holds_the_sample_of_every_row(
    batches: Seq<FrameBatch>,
    sample_rate_hz: u32,
    frame_count: u64,
    index: int,
    row: int,
)
    requires
        well_shaped(batches),
        complete(batches, sample_rate_hz, frame_count),
        0 <= index < batches.len(),
        0 <= row < batch_frames(batches[index]).len(),
    ensures
        ({
            let samples = sample_values(joined_samples(batches));
            let frame = batch_frames(batches[index])[row];
            &&& samples.len() == frame_count
            &&& frame.is_some()
            &&& frame.unwrap() < frame_count
            &&& frame.unwrap() == rows_before(batches, index as nat) + row
            &&& batch_samples(batches[index])[row] == Some(samples[frame.unwrap() as int])
        }),
{
    lemma_joined(batches, index, row);
    let place = rows_before(batches, index as nat) + row;
    assert(joined_frames(batches)[place].is_some());
    assert(joined_samples(batches)[place].is_some());
}

/// A complete render has exactly the frames from zero up to the count, each once and in
/// order, with a finite sample, and nothing else is complete.
pub proof fn a_complete_render_has_every_frame(
    batches: Seq<FrameBatch>,
    sample_rate_hz: u32,
    frame_count: u64,
)
    requires
        well_shaped(batches),
    ensures
        complete(batches, sample_rate_hz, frame_count) <==> {
            &&& rows_before(batches, batches.len()) == frame_count
            &&& forall|index: int|
                0 <= index < batches.len() ==> is_frame_batch(
                    #[trigger] batches[index],
                    sample_rate_hz,
                )
            &&& forall|index: int, row: int|
                0 <= index < batches.len() && 0 <= row < batch_frames(batches[index]).len() ==> {
                    &&& (#[trigger] batch_frames(batches[index])[row]).is_some()
                    &&& batch_frames(batches[index])[row].unwrap() == rows_before(
                        batches,
                        index as nat,
                    ) + row
                    &&& batch_samples(batches[index])[row].is_some()
                    &&& batch_samples(batches[index])[row].unwrap().finite()
                }
        },
{
    lemma_joined_length(batches);
    let frames = joined_frames(batches);
    let samples = joined_samples(batches);
    if complete(batches, sample_rate_hz, frame_count) {
        assert forall|index: int, row: int|
            0 <= index < batches.len() && 0 <= row < batch_frames(batches[index]).len() implies {
            &&& (#[trigger] batch_frames(batches[index])[row]).is_some()
            &&& batch_frames(batches[index])[row].unwrap() == rows_before(batches, index as nat)
                + row
            &&& batch_samples(batches[index])[row].is_some()
            &&& batch_samples(batches[index])[row].unwrap().finite()
        } by {
            lemma_joined(batches, index, row);
            let place = rows_before(batches, index as nat) + row;
            assert(frames[place].is_some());
            assert(samples[place].is_some());
        }
    } else if rows_before(batches, batches.len()) == frame_count && (forall|index: int|
        0 <= index < batches.len() ==> is_frame_batch(#[trigger] batches[index], sample_rate_hz)) {
        if forall|index: int, row: int|
            0 <= index < batches.len() && 0 <= row < batch_frames(batches[index]).len() ==> {
                &&& (#[trigger] batch_frames(batches[index])[row]).is_some()
                &&& batch_frames(batches[index])[row].unwrap() == rows_before(
                    batches,
                    index as nat,
                ) + row
                &&& batch_samples(batches[index])[row].is_some()
                &&& batch_samples(batches[index])[row].unwrap().finite()
            } {
            assert forall|place: int| 0 <= place < frames.len() implies (
            #[trigger] frames[place]).is_some() && frames[place].unwrap() == place
                && samples[place].is_some() && samples[place].unwrap().finite() by {
                let (index, row) = find_row(batches, batches.len(), place as nat);
                lemma_joined(batches, index, row);
                assert(batch_frames(batches[index])[row].is_some());
            }
            assert forall|place: int| 0 <= place < samples.len() implies (
            #[trigger] samples[place]).is_some() && samples[place].unwrap().finite() by {
                assert(frames[place].is_some());
            }
            assert(false);
        }
    }
}

/// The row that stands at a place among all.
proof fn find_row(batches: Seq<FrameBatch>, count: nat, place: nat) -> (found: (int, int))
    requires
        count <= batches.len(),
        place < rows_before(batches, count),
    ensures
        0 <= found.0 < count,
        0 <= found.1 < batch_frames(batches[found.0]).len(),
        rows_before(batches, found.0 as nat) + found.1 == place,
    decreases count,
{
    let less = (count - 1) as nat;
    if place < rows_before(batches, less) {
        find_row(batches, less, place)
    } else {
        (less as int, place - rows_before(batches, less))
    }
}

/// A batch is taken where it has the layout of a render at its rate and each of its rows
/// has the frame that comes next, below the count, and a finite sample.
pub proof fn a_batch_is_taken_row_by_row(decoding: Decoding, batch: FrameBatch)
    requires
        batch_frames(batch).len() == batch_samples(batch).len(),
    ensures
        decoding.accepts(batch) <==> {
            &&& is_frame_batch(batch, decoding.sample_rate_hz)
            &&& forall|row: int|
                0 <= row < batch_frames(batch).len() ==> {
                    &&& decoding.next_frame + row < decoding.frame_count
                    &&& (#[trigger] batch_frames(batch)[row]).is_some()
                    &&& batch_frames(batch)[row].unwrap() == decoding.next_frame + row
                    &&& batch_samples(batch)[row].is_some()
                    &&& batch_samples(batch)[row].unwrap().finite()
                }
        },
{
    lemma_rows(decoding, batch, 0);
}

/// Whether a row is the one that comes next.
spec fn row_comes_next(decoding: Decoding, batch: FrameBatch, row: int) -> bool {
    &&& decoding.next_frame + row < decoding.frame_count
    &&& batch_frames(batch)[row].is_some()
    &&& batch_frames(batch)[row].unwrap() == decoding.next_frame + row
    &&& batch_samples(batch)[row].is_some()
    &&& batch_samples(batch)[row].unwrap().finite()
}

/// Rows from one on.
proof fn lemma_rows(decoding: Decoding, batch: FrameBatch, from: nat)
    requires
        batch_frames(batch).len() == batch_samples(batch).len(),
        from <= batch_frames(batch).len(),
    ensures
        rows_fault(
            decoding.frame_count,
            decoding.next_frame,
            decoding.batch_index,
            batch_frames(batch),
            batch_samples(batch),
            from,
        ).is_none() <==> forall|row: int|
            from <= row < batch_frames(batch).len() ==> {
                &&& decoding.next_frame + row < decoding.frame_count
                &&& (#[trigger] batch_frames(batch)[row]).is_some()
                &&& batch_frames(batch)[row].unwrap() == decoding.next_frame + row
                &&& batch_samples(batch)[row].is_some()
                &&& batch_samples(batch)[row].unwrap().finite()
            },
    decreases batch_frames(batch).len() - from,
{
    let frames = batch_frames(batch);
    if from < frames.len() {
        lemma_rows(decoding, batch, from + 1);
        let fault = row_fault(
            decoding.frame_count,
            decoding.next_frame + from,
            decoding.batch_index,
            from,
            frames[from as int],
            batch_samples(batch)[from as int],
        );
        assert(fault.is_none() == row_comes_next(decoding, batch, from as int));
        if fault.is_none() {
            assert forall|row: int|
                from <= row < frames.len() && (forall|later: int|
                    from + 1 <= later < frames.len() ==> {
                        &&& decoding.next_frame + later < decoding.frame_count
                        &&& (#[trigger] frames[later]).is_some()
                        &&& frames[later].unwrap() == decoding.next_frame + later
                        &&& batch_samples(batch)[later].is_some()
                        &&& batch_samples(batch)[later].unwrap().finite()
                    }) implies {
                &&& decoding.next_frame + row < decoding.frame_count
                &&& (#[trigger] frames[row]).is_some()
                &&& frames[row].unwrap() == decoding.next_frame + row
                &&& batch_samples(batch)[row].is_some()
                &&& batch_samples(batch)[row].unwrap().finite()
            } by {}
        } else {
            assert(!row_comes_next(decoding, batch, from as int));
            assert(frames[from as int].is_some() || frames[from as int].is_none());
        }
    }
}

/// Samples are written where there are as many as frames and each is finite and, where the
/// range matters, in [-1, 1].
pub proof fn sound_samples_are_written(samples: Seq<Single>, frame_count: u64, ranged: bool)
    ensures
        writable(samples, frame_count, ranged) <==> {
            &&& frame_count <= usize::MAX
            &&& samples.len() == frame_count
            &&& forall|i: int|
                0 <= i < samples.len() ==> (#[trigger] samples[i]).finite() && (ranged
                    ==> normalized(samples[i]))
        },
{
    lemma_sound_samples(samples, ranged, 0);
}

/// Samples from one on.
proof fn lemma_sound_samples(samples: Seq<Single>, ranged: bool, from: nat)
    requires
        from <= samples.len(),
    ensures
        sample_fault_from(samples, ranged, from).is_none() <==> forall|i: int|
            from <= i < samples.len() ==> (#[trigger] samples[i]).finite() && (ranged
                ==> normalized(samples[i])),
    decreases samples.len() - from,
{
    if from < samples.len() {
        lemma_sound_samples(samples, ranged, from + 1);
        let here = samples[from as int];
        if here.finite() && (ranged ==> normalized(here)) {
            assert forall|i: int|
                from <= i < samples.len() && (forall|j: int|
                    from + 1 <= j < samples.len() ==> (#[trigger] samples[j]).finite() && (ranged
                        ==> normalized(samples[j]))) implies (#[trigger] samples[i]).finite() && (
            ranged ==> normalized(samples[i])) by {}
        }
    }
}

/// A gain takes a batch where every row has a frame and a sample in [-1, 1].
pub proof fn a_gain_takes_sound_rows(frames: Seq<Option<u64>>, samples: Seq<Option<Single>>)
    requires
        frames.len() == samples.len(),
    ensures
        gain_fault(frames, samples, 0).is_none() <==> forall|row: int|
            0 <= row < frames.len() ==> (#[trigger] frames[row]).is_some()
                && samples[row].is_some() && normalized(samples[row].unwrap()),
{
    lemma_gain_rows(frames, samples, 0);
}

/// Rows from one on.
proof fn lemma_gain_rows(frames: Seq<Option<u64>>, samples: Seq<Option<Single>>, from: nat)
    requires
        frames.len() == samples.len(),
        from <= frames.len(),
    ensures
        gain_fault(frames, samples, from).is_none() <==> forall|row: int|
            from <= row < frames.len() ==> (#[trigger] frames[row]).is_some()
                && samples[row].is_some() && normalized(samples[row].unwrap()),
    decreases frames.len() - from,
{
    if from < frames.len() {
        lemma_gain_rows(frames, samples, from + 1);
        let (frame, sample) = (frames[from as int], samples[from as int]);
        if frame.is_some() && sample.is_some() {
            assert(sample_fault(
                sample.unwrap(),
                frame.unwrap(),
                "FrameGainExec input"@,
            ).is_none() == normalized(sample.unwrap()));
        }
        if frame.is_some() && sample.is_some() && normalized(sample.unwrap()) {
            assert forall|row: int|
                from <= row < frames.len() && (forall|later: int|
                    from + 1 <= later < frames.len() ==> (#[trigger] frames[later]).is_some()
                        && samples[later].is_some() && normalized(
                        samples[later].unwrap(),
                    )) implies (#[trigger] frames[row]).is_some() && samples[row].is_some()
                && normalized(samples[row].unwrap()) by {}
        }
    }
}

/// What is wrong with a sample is said of the first one that is wrong, by its frame.
pub proof fn the_first_wrong_sample_is_named(samples: Seq<Single>, ranged: bool, index: int)
    requires
        0 <= index < samples.len(),
        !samples[index].finite() || (ranged && !normalized(samples[index])),
        forall|i: int|
            0 <= i < index ==> (#[trigger] samples[i]).finite() && (ranged ==> normalized(
                samples[i],
            )),
    ensures
        sample_fault_from(samples, ranged, 0) == Some(
            (if samples[index].finite() {
                "cannot write out-of-range sample at frame "@
            } else {
                "cannot write non-finite sample at frame "@
            }) + decimal(index as nat) + ": "@ + single_text(samples[index].bits),
        ),
{
    lemma_first_wrong(samples, ranged, index, 0);
}

/// The first wrong sample from one on.
proof fn lemma_first_wrong(samples: Seq<Single>, ranged: bool, index: int, from: nat)
    requires
        0 <= from <= index < samples.len(),
        !samples[index].finite() || (ranged && !normalized(samples[index])),
        forall|i: int|
            0 <= i < index ==> (#[trigger] samples[i]).finite() && (ranged ==> normalized(
                samples[i],
            )),
    ensures
        sample_fault_from(samples, ranged, from) == Some(
            (if samples[index].finite() {
                "cannot write out-of-range sample at frame "@
            } else {
                "cannot write non-finite sample at frame "@
            }) + decimal(index as nat) + ": "@ + single_text(samples[index].bits),
        ),
    decreases index - from,
{
    if from < index {
        assert(samples[from as int].finite());
        lemma_first_wrong(samples, ranged, index, from + 1);
    }
}

} // verus!
