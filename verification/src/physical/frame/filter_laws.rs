//! What holds of a low-pass filter over many rows and batches.
use crate::arrow::{batch_frames, batch_samples, FrameBatch};
use crate::ieee::convert::{narrowed, widened};
use crate::ieee::number::{Double, Single};
use crate::physical::frame::low_pass_filter::{
    elapsed_of, filter_ignores_batch_boundaries, filtered_samples, filtered_state,
    lemma_filtered_prefix, Filtering,
};
use crate::physical::frame::node::cell_values;
use crate::render::{joined_frames, joined_samples, well_shaped};
use vstd::prelude::*;

verus! {

/// The state after samples at frames that follow each other without a gap.
pub open spec fn dense_state(run: Filtering, samples: Seq<Single>) -> Double
    decreases samples.len(),
{
    if samples.len() == 0 {
        run.state
    } else {
        run.decay.product_spec(dense_state(run, samples.drop_last())).sum_spec(
            run.alpha.product_spec(widened(samples.last())),
        )
    }
}

/// The filter from another state.
pub open spec fn from_state(run: Filtering, state: Double) -> Filtering {
    Filtering { state, ..run }
}

/// Where every row follows the one before without a gap, each takes one step of decay.
pub proof fn consecutive_rows_decay_by_one_step(
    run: Filtering,
    samples: Seq<Single>,
    elapsed: Seq<u64>,
    powers: Seq<Double>,
    count: nat,
)
    requires
        samples.len() == elapsed.len() == powers.len(),
        count <= samples.len(),
        forall|i: int| 0 <= i < elapsed.len() ==> #[trigger] elapsed[i] == 1,
    ensures
        filtered_state(run, samples, elapsed, powers, count) == dense_state(
            run,
            samples.take(count as int),
        ),
    decreases count,
{
    if count > 0 {
        consecutive_rows_decay_by_one_step(run, samples, elapsed, powers, (count - 1) as nat);
        assert(samples.take(count as int).drop_last() =~= samples.take(count - 1));
        assert(samples.take(count as int).last() == samples[count - 1]);
        assert(elapsed[count - 1] == 1);
    }
}

/// Samples one after the other, and then others.
pub(crate) proof fn lemma_dense_append(run: Filtering, one: Seq<Single>, other: Seq<Single>)
    ensures
        dense_state(run, one + other) == dense_state(from_state(run, dense_state(run, one)), other),
    decreases other.len(),
{
    if other.len() == 0 {
        assert(one + other =~= one);
    } else {
        lemma_dense_append(run, one, other.drop_last());
        assert((one + other).drop_last() =~= one + other.drop_last());
        assert((one + other).last() == other.last());
    }
}

/// As many samples of silence.
pub open spec fn silence(count: nat) -> Seq<Single> {
    Seq::new(count, |i: int| Single { bits: 0 })
}

/// The first `count` samples with silence at every frame that is missing before one.
pub open spec fn filled(samples: Seq<Single>, elapsed: Seq<u64>, count: nat) -> Seq<Single>
    decreases count,
{
    if count == 0 {
        Seq::empty()
    } else {
        filled(samples, elapsed, (count - 1) as nat) + silence((elapsed[count - 1] - 1) as nat)
            + seq![samples[count - 1]]
    }
}

/// Whether the power handed in for a row leaves of the state what the single steps over
/// the missing frames leave of it.
pub open spec fn power_is_repeated_decay(
    run: Filtering,
    samples: Seq<Single>,
    elapsed: Seq<u64>,
    powers: Seq<Double>,
    row: int,
) -> bool {
    let state = filtered_state(run, samples, elapsed, powers, row as nat);
    powers[row].product_spec(state) == run.decay.product_spec(
        dense_state(from_state(run, state), silence((elapsed[row] - 1) as nat)),
    )
}

/// The state after rows with gaps is the state after the same rows with silence in them.
proof fn lemma_gaps(
    run: Filtering,
    samples: Seq<Single>,
    elapsed: Seq<u64>,
    powers: Seq<Double>,
    count: nat,
)
    requires
        samples.len() == elapsed.len() == powers.len(),
        count <= samples.len(),
        forall|i: int| 0 <= i < elapsed.len() ==> #[trigger] elapsed[i] >= 1,
        forall|i: int|
            0 <= i < elapsed.len() && elapsed[i] != 1 ==> #[trigger] power_is_repeated_decay(
                run,
                samples,
                elapsed,
                powers,
                i,
            ),
    ensures
        filtered_state(run, samples, elapsed, powers, count) == dense_state(
            run,
            filled(samples, elapsed, count),
        ),
    decreases count,
{
    if count > 0 {
        let row = count - 1;
        lemma_gaps(run, samples, elapsed, powers, row as nat);
        let before = filled(samples, elapsed, row as nat);
        let gap = silence((elapsed[row] - 1) as nat);
        let state = filtered_state(run, samples, elapsed, powers, row as nat);
        assert(elapsed[row] >= 1);
        lemma_dense_append(run, before, gap);
        let all = filled(samples, elapsed, count);
        assert(all.drop_last() =~= before + gap);
        assert(all.last() == samples[row]);
        if elapsed[row] == 1 {
            assert(gap =~= Seq::empty());
            assert(before + gap =~= before);
        } else {
            assert(power_is_repeated_decay(run, samples, elapsed, powers, row));
        }
    }
}

/// Rows with silence start with the rows before.
proof fn lemma_filled_prefix(samples: Seq<Single>, elapsed: Seq<u64>, count: nat, total: nat)
    requires
        count <= total,
    ensures
        filled(samples, elapsed, count).is_prefix_of(filled(samples, elapsed, total)),
    decreases total - count,
{
    let part = filled(samples, elapsed, count);
    if count < total {
        lemma_filled_prefix(samples, elapsed, count + 1, total);
        let next = filled(samples, elapsed, count + 1);
        let whole = filled(samples, elapsed, total);
        assert(part =~= next.take(part.len() as int));
        assert(next =~= whole.take(next.len() as int));
        assert(part =~= whole.take(part.len() as int));
    } else {
        assert(part =~= part.take(part.len() as int));
    }
}

/// With silence at the missing frames, every sample stands at its frame and the others
/// are silent.
proof fn lemma_filled_places(
    frames: Seq<u64>,
    samples: Seq<Single>,
    elapsed: Seq<u64>,
    count: nat,
)
    requires
        frames.len() == samples.len() == elapsed.len(),
        0 < count <= frames.len(),
        forall|i: int, j: int| 0 <= i < j < frames.len() ==> frames[i] < frames[j],
        elapsed == elapsed_of(None, frames),
    ensures
        filled(samples, elapsed, count).len() == frames[count - 1] - frames[0] + 1,
        forall|i: int|
            0 <= i < count ==> filled(samples, elapsed, count)[#[trigger] frames[i] - frames[0]]
                == samples[i],
        forall|p: int|
            0 <= p < filled(samples, elapsed, count).len() && (forall|i: int|
                0 <= i < count ==> #[trigger] frames[i] - frames[0] != p) ==> (
            #[trigger] filled(samples, elapsed, count)[p]) == (Single { bits: 0 }),
    decreases count,
{
    let all = filled(samples, elapsed, count);
    let row = count - 1;
    if count == 1 {
        reveal_with_fuel(filled, 2);
        assert(elapsed[0] == 1);
        assert(silence(0) =~= Seq::empty());
        assert(all =~= seq![samples[0]]);
    } else {
        lemma_filled_places(frames, samples, elapsed, row as nat);
        let before = filled(samples, elapsed, row as nat);
        assert(frames[row - 1] < frames[row]);
        assert(elapsed[row] == frames[row] - frames[row - 1]);
        let gap = silence((elapsed[row] - 1) as nat);
        assert(all == before + gap + seq![samples[row]]);
        assert forall|i: int| 0 <= i < count implies all[#[trigger] frames[i] - frames[0]]
            == samples[i] by {
            if i < row {
                if i < row - 1 {
                    assert(frames[i] < frames[row - 1]);
                }
                if 0 < i {
                    assert(frames[0] < frames[i]);
                }
                assert(before[frames[i] - frames[0]] == samples[i]);
            }
        }
        assert forall|p: int|
            0 <= p < all.len() && (forall|i: int|
                0 <= i < count ==> #[trigger] frames[i] - frames[0] != p) implies (
        #[trigger] all[p]) == (Single { bits: 0 }) by {
            if p < before.len() {
                assert(all[p] == before[p]);
            } else {
                assert(frames[row] - frames[0] != p);
            }
        }
    }
}

/// A gap is a run of silent rows: wherever the power handed in for it leaves of the state
/// what the single steps leave, the output at a frame is that of the same rows with
/// silence at every missing frame, and no row is added.
pub proof fn a_gap_is_a_run_of_silence(
    run: Filtering,
    frames: Seq<u64>,
    samples: Seq<Single>,
    powers: Seq<Double>,
    dense_elapsed: Seq<u64>,
    dense_powers: Seq<Double>,
    row: int,
)
    requires
        frames.len() == samples.len() == powers.len(),
        0 <= row < frames.len(),
        forall|i: int, j: int| 0 <= i < j < frames.len() ==> frames[i] < frames[j],
        forall|i: int|
            0 <= i < frames.len() && elapsed_of(None, frames)[i] != 1
                ==> #[trigger] power_is_repeated_decay(
                run,
                samples,
                elapsed_of(None, frames),
                powers,
                i,
            ),
        dense_elapsed.len() == dense_powers.len() == frames.last() - frames[0] + 1,
        forall|i: int| 0 <= i < dense_elapsed.len() ==> #[trigger] dense_elapsed[i] == 1,
    ensures
        ({
            let elapsed = elapsed_of(None, frames);
            let dense = filled(samples, elapsed, frames.len());
            &&& dense.len() == frames.last() - frames[0] + 1
            &&& forall|i: int|
                0 <= i < frames.len() ==> dense[#[trigger] frames[i] - frames[0]] == samples[i]
            &&& forall|p: int|
                0 <= p < dense.len() && (forall|i: int|
                    0 <= i < frames.len() ==> #[trigger] frames[i] - frames[0] != p) ==> (
                #[trigger] dense[p]) == (Single { bits: 0 })
            &&& filtered_samples(run, samples, elapsed, powers).len() == frames.len()
            &&& filtered_samples(run, samples, elapsed, powers)[row] == filtered_samples(
                run,
                dense,
                dense_elapsed,
                dense_powers,
            )[frames[row] - frames[0]]
        }),
{
    let elapsed = elapsed_of(None, frames);
    let n = frames.len();
    let dense = filled(samples, elapsed, n);
    assert forall|i: int| 0 <= i < elapsed.len() implies #[trigger] elapsed[i] >= 1 by {
        if i > 0 {
            assert(frames[i - 1] < frames[i]);
        }
    }
    lemma_filled_places(frames, samples, elapsed, n);
    lemma_filled_places(frames, samples, elapsed, (row + 1) as nat);
    lemma_gaps(run, samples, elapsed, powers, (row + 1) as nat);
    lemma_filled_prefix(samples, elapsed, (row + 1) as nat, n);
    let part = filled(samples, elapsed, (row + 1) as nat);
    let place = frames[row] - frames[0];
    if row > 0 {
        assert(frames[0] < frames[row]);
    }
    if row < n - 1 {
        assert(frames[row] < frames[n - 1]);
    }
    assert(part =~= dense.take(place + 1));
    consecutive_rows_decay_by_one_step(
        run,
        dense,
        dense_elapsed,
        dense_powers,
        (place + 1) as nat,
    );
}

/// What a power function hands in for some rows.
pub open spec fn powers_of(elapsed: Seq<u64>, power: spec_fn(u64) -> Double) -> Seq<Double> {
    elapsed.map_values(power)
}

/// Where a filter stands after some rows.
pub open spec fn after_rows(
    run: Filtering,
    frames: Seq<u64>,
    samples: Seq<Single>,
    power: spec_fn(u64) -> Double,
) -> Filtering {
    let elapsed = elapsed_of(run.last_frame, frames);
    Filtering {
        state: filtered_state(run, samples, elapsed, powers_of(elapsed, power), samples.len()),
        last_frame: if frames.len() == 0 {
            run.last_frame
        } else {
            Some(frames.last())
        },
        ..run
    }
}

/// What a filter makes of some rows.
pub open spec fn rows_output(
    run: Filtering,
    frames: Seq<u64>,
    samples: Seq<Single>,
    power: spec_fn(u64) -> Double,
) -> Seq<Single> {
    let elapsed = elapsed_of(run.last_frame, frames);
    filtered_samples(run, samples, elapsed, powers_of(elapsed, power))
}

/// Where a filter stands after some batches.
pub open spec fn after_batches(
    run: Filtering,
    batches: Seq<FrameBatch>,
    power: spec_fn(u64) -> Double,
) -> Filtering
    decreases batches.len(),
{
    if batches.len() == 0 {
        run
    } else {
        after_rows(
            after_batches(run, batches.drop_last(), power),
            cell_values(batch_frames(batches.last())),
            cell_values(batch_samples(batches.last())),
            power,
        )
    }
}

/// The output rows of an execution over some batches, one after the other: the filter
/// takes each batch from where the one before left it.
pub open spec fn batches_output(
    run: Filtering,
    batches: Seq<FrameBatch>,
    power: spec_fn(u64) -> Double,
) -> Seq<Single>
    decreases batches.len(),
{
    if batches.len() == 0 {
        Seq::empty()
    } else {
        batches_output(run, batches.drop_last(), power) + rows_output(
            after_batches(run, batches.drop_last(), power),
            cell_values(batch_frames(batches.last())),
            cell_values(batch_samples(batches.last())),
            power,
        )
    }
}

/// Some rows, and then others.
proof fn lemma_rows_append(
    run: Filtering,
    frames: Seq<u64>,
    samples: Seq<Single>,
    more_frames: Seq<u64>,
    more_samples: Seq<Single>,
    power: spec_fn(u64) -> Double,
)
    requires
        frames.len() == samples.len(),
        more_frames.len() == more_samples.len(),
    ensures
        ({
            let next = after_rows(run, frames, samples, power);
            &&& after_rows(run, frames + more_frames, samples + more_samples, power) == after_rows(
                next,
                more_frames,
                more_samples,
                power,
            )
            &&& rows_output(run, frames + more_frames, samples + more_samples, power)
                == rows_output(run, frames, samples, power) + rows_output(
                next,
                more_frames,
                more_samples,
                power,
            )
        }),
{
    let next = after_rows(run, frames, samples, power);
    let cut = frames.len();
    let all_frames = frames + more_frames;
    let all_samples = samples + more_samples;
    let one = elapsed_of(run.last_frame, frames);
    let other = elapsed_of(next.last_frame, more_frames);
    let elapsed = elapsed_of(run.last_frame, all_frames);
    let powers = powers_of(elapsed, power);
    assert(elapsed =~= one + other);
    assert(elapsed.take(cut as int) =~= one);
    assert(elapsed.skip(cut as int) =~= other);
    assert(powers.take(cut as int) =~= powers_of(one, power));
    assert(powers.skip(cut as int) =~= powers_of(other, power));
    assert(all_samples.take(cut as int) =~= samples);
    assert(all_samples.skip(cut as int) =~= more_samples);
    assert forall|count: nat| cut <= count <= all_samples.len() implies #[trigger] filtered_state(
        run,
        all_samples,
        elapsed,
        powers,
        count,
    ) == filtered_state(
        next,
        more_samples,
        other,
        powers_of(other, power),
        (count - cut) as nat,
    ) by {
        filter_ignores_batch_boundaries(run, all_samples, elapsed, powers, cut, count);
        lemma_last_frame_is_no_state(
            Filtering { state: next.state, ..run },
            next,
            more_samples,
            other,
            powers_of(other, power),
            (count - cut) as nat,
        );
    }
    assert forall|count: nat| count <= cut implies #[trigger] filtered_state(
        run,
        all_samples,
        elapsed,
        powers,
        count,
    ) == filtered_state(run, samples, one, powers_of(one, power), count) by {
        lemma_filtered_prefix(run, all_samples, elapsed, powers, cut, count);
    }
    let output = rows_output(run, all_frames, all_samples, power);
    let parts = rows_output(run, frames, samples, power) + rows_output(
        next,
        more_frames,
        more_samples,
        power,
    );
    assert forall|i: int| 0 <= i < output.len() implies output[i] == parts[i] by {
        let state = filtered_state(run, all_samples, elapsed, powers, (i + 1) as nat);
        assert(output[i] == narrowed(state));
    }
    assert(output =~= parts);
    let total = filtered_state(run, all_samples, elapsed, powers, all_samples.len());
    assert(total == filtered_state(
        next,
        more_samples,
        other,
        powers_of(other, power),
        more_samples.len(),
    ));
}

/// The state does not look at the last frame.
proof fn lemma_last_frame_is_no_state(
    one: Filtering,
    other: Filtering,
    samples: Seq<Single>,
    elapsed: Seq<u64>,
    powers: Seq<Double>,
    count: nat,
)
    requires
        one.alpha == other.alpha,
        one.decay == other.decay,
        one.state == other.state,
    ensures
        filtered_state(one, samples, elapsed, powers, count) == filtered_state(
            other,
            samples,
            elapsed,
            powers,
            count,
        ),
    decreases count,
{
    if count > 0 {
        lemma_last_frame_is_no_state(one, other, samples, elapsed, powers, (count - 1) as nat);
    }
}

/// Filtering batch after batch is filtering all their rows at once.
pub proof fn batches_are_filtered_as_one(
    run: Filtering,
    batches: Seq<FrameBatch>,
    power: spec_fn(u64) -> Double,
)
    requires
        well_shaped(batches),
    ensures
        joined_frames(batches).len() == joined_samples(batches).len(),
        after_batches(run, batches, power) == after_rows(
            run,
            cell_values(joined_frames(batches)),
            cell_values(joined_samples(batches)),
            power,
        ),
        batches_output(run, batches, power) == rows_output(
            run,
            cell_values(joined_frames(batches)),
            cell_values(joined_samples(batches)),
            power,
        ),
    decreases batches.len(),
{
    if batches.len() == 0 {
        assert(cell_values(joined_frames(batches)) =~= Seq::empty());
        assert(cell_values(joined_samples(batches)) =~= Seq::empty());
        assert(batches_output(run, batches, power) =~= rows_output(
            run,
            Seq::empty(),
            Seq::empty(),
            power,
        ));
    } else {
        let rest = batches.drop_last();
        let last = batches.last();
        assert(well_shaped(rest)) by {
            assert forall|i: int| 0 <= i < rest.len() implies batch_frames(
                #[trigger] rest[i],
            ).len() == batch_samples(rest[i]).len() by {
                assert(rest[i] == batches[i]);
            }
        }
        assert(batch_frames(batches[batches.len() - 1]).len() == batch_samples(
            batches[batches.len() - 1],
        ).len());
        batches_are_filtered_as_one(run, rest, power);
        assert(cell_values(joined_frames(batches)) =~= cell_values(joined_frames(rest))
            + cell_values(batch_frames(last)));
        assert(cell_values(joined_samples(batches)) =~= cell_values(joined_samples(rest))
            + cell_values(batch_samples(last)));
        lemma_rows_append(
            run,
            cell_values(joined_frames(rest)),
            cell_values(joined_samples(rest)),
            cell_values(batch_frames(last)),
            cell_values(batch_samples(last)),
            power,
        );
    }
}

/// Two executions of a filter over the same rows give the same rows, wherever the batches
/// of either begin and end.
pub proof fn executions_over_the_same_rows_agree(
    run: Filtering,
    one: Seq<FrameBatch>,
    other: Seq<FrameBatch>,
    power: spec_fn(u64) -> Double,
)
    requires
        well_shaped(one),
        well_shaped(other),
        joined_frames(one) == joined_frames(other),
        joined_samples(one) == joined_samples(other),
    ensures
        batches_output(run, one, power) == batches_output(run, other, power),
        batches_output(run, one, power).len() == joined_frames(one).len(),
        after_batches(run, one, power) == after_batches(run, other, power),
{
    batches_are_filtered_as_one(run, one, power);
    batches_are_filtered_as_one(run, other, power);
}

} // verus!
