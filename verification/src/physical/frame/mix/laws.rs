//! What a mixer hands out.
use crate::arrow::{
    batch_columns, batch_frames, batch_rows, batch_samples, ColumnType, FrameBatch,
};
use crate::ieee::accuracy::{is_rounded, single_products_are_accurate, single_sums_are_accurate};
use crate::ieee::bounds::{lemma_rounded_between, lemma_single_rounding_stops};
use crate::ieee::closeness::lemma_abs_product;
use crate::ieee::format::{lemma_units_zero, units};
use crate::ieee::number::{lemma_bounds, Single};
use crate::ieee::round::single_spec;
use crate::physical::frame::mix::cursor::{
    all_wf, lemma_least_frame, merge_fault, taking_a_frame_passes_it, Walk,
};
use crate::physical::frame::mix::{
    every_frame_of_every_input_is_handed_out, frame_was_taken, mixed, mixed_emission,
    mixed_extent, row_has_frame, some_extent, Mixing, Pause,
};
use crate::physical::frame::node::{Emission, Extent};
use crate::physical::frame::plan::Plan;
use std::sync::Arc;
use vstd::arithmetic::power2::{
    lemma2_to64, lemma2_to64_rest, lemma_pow2_pos, lemma_pow2_unfold, pow2,
};
use vstd::math::abs;
use vstd::prelude::*;

verus! {

/// Every row that is left has a frame and a sample, and their frames increase.
pub open spec fn is_orderly(input: Walk) -> bool {
    &&& input.wf()
    &&& input.row < input.rows ==> input.frames.is_some() && input.samples.is_some()
    &&& forall|a: int|
        input.row <= a < input.rows ==> (#[trigger] input.frames.unwrap()[a]).is_some()
            && input.samples.unwrap()[a].is_some()
    &&& forall|a: int, b: int|
        input.row <= a < b < input.rows ==> (#[trigger] input.frames.unwrap()[a]).unwrap() < (
        #[trigger] input.frames.unwrap()[b]).unwrap()
    &&& input.row < input.rows ==> (input.last_frame matches Some(last)
        ==> input.frames.unwrap()[input.row as int].unwrap() > last)
}

/// Every input is orderly.
pub open spec fn all_orderly(inputs: Seq<Walk>) -> bool {
    forall|i: int| 0 <= i < inputs.len() ==> is_orderly(#[trigger] inputs[i])
}

/// Whether a row that is left holds this frame.
pub open spec fn is_at(input: Walk, row: int, frame: u64) -> bool {
    input.row <= row < input.rows && input.frames.unwrap()[row] == Some(frame)
}

/// Whether this is what an input has at a frame: the sample of its row there, or none where
/// no row is.
pub open spec fn has_at(input: Walk, frame: u64, heard: Option<Single>) -> bool {
    match heard {
        Some(sample) => exists|row: int| #[trigger]
            is_at(input, row, frame) && input.samples.unwrap()[row] == Some(sample),
        None => forall|row: int| !#[trigger] is_at(input, row, frame),
    }
}

/// Whether these are what the inputs have at a frame.
pub open spec fn all_have_at(inputs: Seq<Walk>, frame: u64, heard: Seq<Option<Single>>) -> bool {
    &&& heard.len() == inputs.len()
    &&& forall|i: int| 0 <= i < inputs.len() ==> has_at(#[trigger] inputs[i], frame, heard[i])
}

/// Whether a sample is the weighted sum of what the inputs have at a frame.
pub open spec fn is_mix_at(
    inputs: Seq<Walk>,
    gains: Seq<Single>,
    frame: u64,
    sample: Single,
) -> bool {
    exists|heard: Seq<Option<Single>>| #[trigger]
        all_have_at(inputs, frame, heard) && sample == mixed(heard, gains, inputs.len())
}

/// Orderly inputs have no fault.
proof fn lemma_orderly_reads(inputs: Seq<Walk>, from: nat)
    requires
        all_orderly(inputs),
    ensures
        merge_fault(inputs, from).is_none(),
    decreases inputs.len() - from,
{
    if from < inputs.len() {
        assert(is_orderly(inputs[from as int]));
        assert(inputs[from as int].reading().is_ok());
        lemma_orderly_reads(inputs, from + 1);
    }
}

/// One step hands out the weighted sum at its frame, and leaves only later rows.
proof fn lemma_step_mixes(run: Mixing)
    requires
        run.pause().is_none(),
        all_orderly(run.inputs),
        run.gains.len() == run.inputs.len(),
    ensures
        ({
            let frame = run.next_frame();
            let next = run.stepped(frame);
            &&& next.inputs.len() == run.inputs.len()
            &&& next.gains == run.gains
            &&& next.capacity == run.capacity
            &&& next.frames == run.frames.push(frame)
            &&& next.samples.len() == run.samples.len() + 1
            &&& next.samples.take(run.samples.len() as int) == run.samples
            &&& all_orderly(next.inputs)
            &&& is_mix_at(run.inputs, run.gains, frame, next.samples.last())
            &&& forall|i: int, row: int|
                0 <= i < run.inputs.len() && next.inputs[i].row <= row < run.inputs[i].rows ==> (
                #[trigger] run.inputs[i].frames.unwrap()[row]).unwrap() > frame
            &&& forall|i: int|
                0 <= i < run.inputs.len() ==> {
                    &&& (#[trigger] next.inputs[i]).frames == run.inputs[i].frames
                    &&& next.inputs[i].samples == run.inputs[i].samples
                    &&& next.inputs[i].rows == run.inputs[i].rows
                    &&& run.inputs[i].row <= next.inputs[i].row <= run.inputs[i].row + 1
                    &&& next.inputs[i].row == run.inputs[i].row + 1
                        ==> run.inputs[i].frames.unwrap()[run.inputs[i].row as int] == Some(frame)
                }
        }),
{
    let frame = run.next_frame();
    let next = run.stepped(frame);
    lemma_orderly_reads(run.inputs, 0);
    lemma_least_frame(run.inputs, run.inputs.len());
    assert(next.samples.take(run.samples.len() as int) =~= run.samples);
    let heard = Seq::new(run.inputs.len(), |i: int| run.inputs[i].sample_at(frame));
    assert forall|i: int| 0 <= i < run.inputs.len() implies {
        &&& has_at(#[trigger] run.inputs[i], frame, heard[i])
        &&& is_orderly(next.inputs[i])
    } by {
        let input = run.inputs[i];
        assert(is_orderly(input));
        assert(!input.needs_load());
        assert(input.reading().is_ok());
        if input.row < input.rows {
            let here = input.frames.unwrap()[input.row as int];
            assert(here.is_some());
            assert(frame <= here.unwrap());
            if input.sample_at(frame).is_some() {
                assert(is_at(input, input.row as int, frame));
            } else {
                assert forall|row: int| !#[trigger] is_at(input, row, frame) by {
                    if input.row < row < input.rows {
                        assert(here.unwrap() < input.frames.unwrap()[row].unwrap());
                    }
                }
            }
        }
    }
    assert(heard =~= crate::physical::frame::mix::cursor::aligned(run.inputs, frame));
    assert(all_have_at(run.inputs, frame, heard));
    assert forall|i: int, row: int|
        0 <= i < run.inputs.len() && next.inputs[i].row <= row < run.inputs[i].rows implies (
    #[trigger] run.inputs[i].frames.unwrap()[row]).unwrap() > frame by {
        let input = run.inputs[i];
        assert(is_orderly(input));
        assert(input.reading().is_ok());
        let here = input.frames.unwrap()[input.row as int];
        assert(here.is_some());
        if input.row < row {
            assert(here.unwrap() < input.frames.unwrap()[row].unwrap());
        }
    }
    assert forall|i: int| 0 <= i < run.inputs.len() implies {
        &&& (#[trigger] next.inputs[i]).frames == run.inputs[i].frames
        &&& next.inputs[i].samples == run.inputs[i].samples
        &&& next.inputs[i].rows == run.inputs[i].rows
        &&& run.inputs[i].row <= next.inputs[i].row <= run.inputs[i].row + 1
        &&& next.inputs[i].row == run.inputs[i].row + 1
            ==> run.inputs[i].frames.unwrap()[run.inputs[i].row as int] == Some(frame)
    } by {
        let input = run.inputs[i];
        assert(is_orderly(input));
        assert(input.reading().is_ok());
    }
}

/// What the inputs have at a later frame they had before a step.
proof fn lemma_heard_before(
    before: Seq<Walk>,
    after: Seq<Walk>,
    gains: Seq<Single>,
    taken: u64,
    frame: u64,
    sample: Single,
)
    requires
        after.len() == before.len(),
        taken < frame,
        is_mix_at(after, gains, frame, sample),
        forall|i: int|
            0 <= i < before.len() ==> {
                &&& (#[trigger] after[i]).frames == before[i].frames
                &&& after[i].samples == before[i].samples
                &&& after[i].rows == before[i].rows
                &&& before[i].row <= after[i].row <= before[i].row + 1
                &&& after[i].row == before[i].row + 1
                    ==> before[i].frames.unwrap()[before[i].row as int] == Some(taken)
            },
    ensures
        is_mix_at(before, gains, frame, sample),
{
    let heard = choose|heard: Seq<Option<Single>>| #[trigger]
        all_have_at(after, frame, heard) && sample == mixed(heard, gains, after.len());
    assert forall|i: int| 0 <= i < before.len() implies has_at(
        #[trigger] before[i],
        frame,
        heard[i],
    ) by {
        assert(has_at(after[i], frame, heard[i]));
        match heard[i] {
            Some(found) => {
                let row = choose|row: int| #[trigger]
                    is_at(after[i], row, frame) && after[i].samples.unwrap()[row] == Some(found);
                assert(is_at(before[i], row, frame));
            },
            None => {
                assert forall|row: int| !#[trigger] is_at(before[i], row, frame) by {
                    assert(!is_at(after[i], row, frame));
                }
            },
        }
    }
    assert(all_have_at(before, frame, heard));
}

/// Every row that a mixer adds to its batch carries, at its frame, the weighted sum of the
/// samples that the inputs have at that frame, wherever in the batch it stands; a sample
/// that is missing there is silence. The rows before stay as they are.
pub proof fn every_row_is_the_mix_at_its_frame(run: Mixing)
    requires
        all_orderly(run.inputs),
        run.gains.len() == run.inputs.len(),
        run.frames.len() == run.samples.len(),
    ensures
        run.rest().frames.len() == run.rest().samples.len(),
        run.rest().frames.len() >= run.frames.len(),
        run.rest().frames.take(run.frames.len() as int) == run.frames,
        run.rest().samples.take(run.samples.len() as int) == run.samples,
        forall|j: int|
            run.frames.len() <= j < run.rest().frames.len() ==> is_mix_at(
                run.inputs,
                run.gains,
                #[trigger] run.rest().frames[j],
                run.rest().samples[j],
            ),
    decreases run.capacity - run.frames.len(),
{
    let n = run.frames.len() as int;
    let rest = run.rest();
    if run.pause().is_some() {
        assert(rest.frames.take(n) =~= run.frames);
        assert(rest.samples.take(n) =~= run.samples);
    } else {
        let frame = run.next_frame();
        let next = run.stepped(frame);
        lemma_step_mixes(run);
        every_row_is_the_mix_at_its_frame(next);
        assert(rest == next.rest());
        assert(rest.frames.take(n) =~= run.frames) by {
            assert(rest.frames.take(n) =~= rest.frames.take(n + 1).take(n));
            assert(next.frames.take(n) =~= run.frames);
        }
        assert(rest.samples.take(n) =~= run.samples) by {
            assert(rest.samples.take(n) =~= rest.samples.take(n + 1).take(n));
        }
        assert(rest.frames[n] == rest.frames.take(n + 1)[n]);
        assert(rest.samples[n] == rest.samples.take(n + 1)[n]);
        assert(all_wf(next.inputs)) by {
            assert forall|i: int| 0 <= i < next.inputs.len() implies (
            #[trigger] next.inputs[i]).wf() by {
                assert(is_orderly(next.inputs[i]));
            }
        }
        every_frame_of_every_input_is_handed_out(next);
        assert forall|j: int| n <= j < rest.frames.len() implies is_mix_at(
            run.inputs,
            run.gains,
            #[trigger] rest.frames[j],
            rest.samples[j],
        ) by {
            if j > n {
                let later = rest.frames[j];
                assert(frame_was_taken(next.inputs, rest.inputs, later));
                let (i, row) = choose|i: int, row: nat|
                    0 <= i < next.inputs.len() && next.inputs[i].row <= row < rest.inputs[i].row
                        && #[trigger] row_has_frame(next.inputs[i], row, later);
                assert(is_orderly(next.inputs[i]));
                assert(run.inputs[i].frames.unwrap()[row as int].unwrap() > frame);
                lemma_heard_before(
                    run.inputs,
                    next.inputs,
                    run.gains,
                    frame,
                    later,
                    rest.samples[j],
                );
            }
        }
    }
}

/// A mixer with rows before those of its batch, and as much more room.
pub open spec fn behind(run: Mixing, frames: Seq<u64>, samples: Seq<Single>) -> Mixing {
    Mixing {
        frames: frames + run.frames,
        samples: samples + run.samples,
        capacity: (run.capacity + frames.len()) as usize,
        ..run
    }
}

/// What a batch already holds does not change what is added to it: after a batch was
/// handed out, the mixer goes on as if it had not been.
pub proof fn handing_out_does_not_matter(run: Mixing, frames: Seq<u64>, samples: Seq<Single>)
    requires
        run.capacity + frames.len() <= usize::MAX,
    ensures
        behind(run, frames, samples).rest() == behind(run.rest(), frames, samples),
    decreases run.capacity - run.frames.len(),
{
    let full = behind(run, frames, samples);
    if run.pause().is_none() {
        let frame = run.next_frame();
        let next = run.stepped(frame);
        assert(full.next_frame() == frame);
        assert(frames + run.frames.push(frame) =~= (frames + run.frames).push(frame));
        let sample = next.samples.last();
        assert(next.samples =~= run.samples.push(sample));
        assert(samples + run.samples.push(sample) =~= (samples + run.samples).push(sample));
        assert(full.stepped(frame) =~= behind(next, frames, samples));
        handing_out_does_not_matter(next, frames, samples);
    }
}

/// How many frames a batch holds does not change them: where a smaller batch is full, a
/// larger one goes on from there.
pub proof fn the_capacity_does_not_matter(run: Mixing, capacity: usize)
    requires
        run.capacity <= capacity,
    ensures
        (Mixing { capacity, ..run }).rest() == (Mixing { capacity, ..run.rest() }).rest(),
    decreases run.capacity - run.frames.len(),
{
    if run.pause().is_none() {
        let frame = run.next_frame();
        let next = run.stepped(frame);
        let large = Mixing { capacity, ..run };
        assert(large.stepped(frame) =~= Mixing { capacity, ..next });
        the_capacity_does_not_matter(next, capacity);
    }
}

/// A sample, or silence where there is none.
pub open spec fn heard_value(sample: Option<Single>) -> int {
    match sample {
        Some(sample) => sample.value(),
        None => 0,
    }
}

/// The exact weighted sum of the first `count` samples.
pub open spec fn exact_mix(samples: Seq<Option<Single>>, gains: Seq<Single>, count: nat) -> int
    decreases count,
{
    if count == 0 {
        0
    } else {
        exact_mix(samples, gains, (count - 1) as nat) + heard_value(samples[count - 1])
            * gains[count - 1].value()
    }
}

/// Whether a number is finite and no larger than a limit.
pub open spec fn is_small(x: Single, limit: nat) -> bool {
    x.finite() && abs(x.value()) <= limit
}

/// The mix of some samples is their exact weighted sum, but for two roundings an input:
/// as long as nothing goes beyond `limit` on the way.
pub proof fn a_mix_is_the_weighted_sum(
    samples: Seq<Option<Single>>,
    gains: Seq<Single>,
    count: nat,
    limit: nat,
)
    requires
        count <= samples.len(),
        count <= gains.len(),
        forall|i: int|
            0 <= i < count ==> (#[trigger] gains[i]).finite() && (samples[i] matches Some(sample)
                ==> sample.finite() && is_small(sample.product_spec(gains[i]), limit)),
        forall|c: nat| c <= count ==> is_small(#[trigger] mixed(samples, gains, c), limit),
    ensures
        pow2(24) * abs(
            mixed(samples, gains, count).value() * pow2(149) - exact_mix(samples, gains, count),
        ) <= 2 * count * ((limit + pow2(24)) * pow2(149)),
    decreases count,
{
    lemma_bounds();
    lemma_units_zero(23);
    lemma_pow2_pos(149);
    lemma_pow2_pos(24);
    let u = pow2(149) as int;
    let w = pow2(24) as int;
    let unit = (limit + w) * u;
    let total = mixed(samples, gains, count);
    assert(is_small(total, limit));
    if count == 0 {
        assert(total.value() == 0);
        assert(0 * u == 0);
        assert(w * 0 == 0);
        assert(2 * 0 * unit == 0);
    } else {
        let less = (count - 1) as nat;
        let last = count - 1;
        a_mix_is_the_weighted_sum(samples, gains, less, limit);
        let before = mixed(samples, gains, less);
        assert(is_small(before, limit));
        let sample = match samples[last] {
            Some(sample) => sample,
            None => Single { bits: 0 },
        };
        let gain = gains[last];
        assert(gain.finite());
        assert(sample.finite());
        assert(sample.value() == heard_value(samples[last]));
        let product = sample.product_spec(gain);
        if samples[last].is_none() {
            lemma_silent_product(gain);
        }
        assert(is_small(product, limit));
        single_products_are_accurate(sample, gain);
        single_sums_are_accurate(before, product);
        lemma_mix_step(
            exact_mix(samples, gains, less),
            before.value(),
            sample.value() * gain.value(),
            product.value(),
            total.value(),
            less,
            limit,
        );
    }
}

/// Silence stays silence.
proof fn lemma_silent_product(gain: Single)
    requires
        gain.finite(),
    ensures
        (Single { bits: 0 }).product_spec(gain).finite(),
        (Single { bits: 0 }).product_spec(gain).value() == 0,
{
    let n = units(23, gain.datum().mag as nat);
    lemma_bounds();
    lemma_units_zero(23);
    lemma_pow2_pos(149);
    assert(0 * n == 0);
    assert(units(23, 0) * pow2(149) == 0) by (nonlinear_arith)
        requires
            units(23, 0) == 0,
    ;
    lemma_rounded_between(single_spec(), 0, pow2(149), 0);
}

/// One more input.
proof fn lemma_mix_step(
    exact: int,
    before: int,
    term: int,
    product: int,
    total: int,
    less: nat,
    limit: nat,
)
    requires
        pow2(24) * abs(before * pow2(149) - exact) <= 2 * less * ((limit + pow2(24)) * pow2(149)),
        is_rounded(product, term, pow2(149) as int, 24),
        is_rounded(total, before + product, 1, 24),
        abs(product) <= limit,
        abs(total) <= limit,
    ensures
        pow2(24) * abs(total * pow2(149) - (exact + term)) <= 2 * (less + 1) * ((limit + pow2(24))
            * pow2(149)),
{
    let u = pow2(149) as int;
    let w = pow2(24) as int;
    let n = less as int;
    let unit = (limit + w) * u;
    lemma_pow2_pos(149);
    lemma_pow2_pos(24);
    let e1 = before * u - exact;
    let e2 = product * u - term;
    let e3 = total - (before + product);
    assert(total * 1 == total);
    assert(total * u - (exact + term) == e3 * u + e1 + e2) by {
        assert((total - (before + product)) * u == total * u - before * u - product * u)
            by (nonlinear_arith);
    }
    lemma_abs_product(e3, u);
    assert(w * abs(e2) <= unit) by (nonlinear_arith)
        requires
            w * abs(e2) <= (abs(product) + w) * u,
            abs(product) <= limit,
            unit == (limit + w) * u,
            u > 0,
    ;
    assert(w * (abs(e3) * u) <= unit) by (nonlinear_arith)
        requires
            w * abs(e3) <= (abs(total) + w) * 1,
            abs(total) <= limit,
            unit == (limit + w) * u,
            u > 0,
    ;
    let s = abs(total * u - (exact + term)) as int;
    let (a, b, c) = (abs(e1) as int, abs(e2) as int, abs(e3) * u);
    assert(s <= a + b + c);
    assert(w * s <= w * a + w * b + w * c) by (nonlinear_arith)
        requires
            s <= a + b + c,
            w > 0,
    ;
    assert(2 * (n + 1) * unit == 2 * n * unit + 2 * unit) by (nonlinear_arith);
}

/// A batch that comes in is walked from its first row to its last, with the frames and the
/// samples that it holds; the end of an input leaves nothing to walk.
pub proof fn a_batch_is_walked_whole(input: Walk, batch: FrameBatch)
    requires
        batch_rows(batch) > 0,
        batch_columns(batch).len() >= 2,
        batch_columns(batch)[0].kind == Some(ColumnType::UInt64),
        batch_columns(batch)[1].kind == Some(ColumnType::Float32),
    ensures
        input.loaded(batch).row == 0,
        input.loaded(batch).rows == batch_rows(batch),
        input.loaded(batch).frames == Some(batch_frames(batch)),
        input.loaded(batch).samples == Some(batch_samples(batch)),
        input.loaded(batch).last_frame == input.last_frame,
        input.loaded(batch).finished == input.finished,
        input.ended().finished,
        input.ended().row == input.ended().rows,
{
}

/// A row is read where it has a frame, above the last one that was taken, and a sample,
/// and as it is; there is nothing to read behind the last row.
pub proof fn a_row_is_read_as_it_is(input: Walk)
    requires
        input.wf(),
    ensures
        input.row == input.rows ==> input.reading() == Ok::<Option<(u64, Single)>, Seq<char>>(None),
        input.row < input.rows ==> match input.reading() {
            Ok(Some((frame, sample))) => {
                &&& input.frames matches Some(frames) && frames[input.row as int] == Some(frame)
                &&& input.samples matches Some(samples) && samples[input.row as int] == Some(
                    sample,
                )
                &&& input.last_frame matches Some(last) ==> last < frame
            },
            Ok(None) => false,
            Err(_) => {
                ||| input.frames.is_none()
                ||| input.samples.is_none()
                ||| input.frames.unwrap()[input.row as int].is_none()
                ||| input.samples.unwrap()[input.row as int].is_none()
                ||| input.last_frame.is_some() && input.frames.unwrap()[input.row as int].unwrap()
                    <= input.last_frame.unwrap()
            },
        },
{
}

/// A mix ends where all of its inputs do, and hands out as late as the latest of them.
pub proof fn a_mix_lasts_as_long_as_its_inputs(inputs: Seq<Arc<Plan>>)
    ensures
        mixed_extent(inputs) == Extent::Bounded <==> forall|i: int|
            0 <= i < inputs.len() ==> (#[trigger] inputs[i]).known().extent == Extent::Bounded,
        mixed_emission(inputs) == Emission::Incremental <==> forall|i: int|
            0 <= i < inputs.len() ==> (#[trigger] inputs[i]).known().emission
                == Emission::Incremental,
        mixed_emission(inputs) == Emission::Final <==> exists|i: int|
            0 <= i < inputs.len() && (#[trigger] inputs[i]).known().emission == Emission::Final,
{
    let never = Extent::Unbounded { requires_infinite_memory: true };
    let open = Extent::Unbounded { requires_infinite_memory: false };
    if mixed_extent(inputs) == Extent::Bounded {
        assert forall|i: int| 0 <= i < inputs.len() implies (#[trigger] inputs[i]).known().extent
            == Extent::Bounded by {
            assert(!some_extent(inputs, never) && !some_extent(inputs, open));
            match inputs[i].known().extent {
                Extent::Bounded => {},
                Extent::Unbounded { requires_infinite_memory } => {
                    if requires_infinite_memory {
                        assert(some_extent(inputs, never));
                    } else {
                        assert(some_extent(inputs, open));
                    }
                },
            }
        }
    }
}

/// The mix of samples in [-1, 1] is finite, for gains up to `2^60` and fewer than `2^24`
/// inputs: no input makes it anything else.
pub proof fn a_mix_of_samples_is_finite(
    samples: Seq<Option<Single>>,
    gains: Seq<Single>,
    count: nat,
)
    requires
        count <= samples.len(),
        count <= gains.len(),
        count < 0x100_0000,
        forall|i: int|
            0 <= i < count ==> is_small(#[trigger] gains[i], pow2(209)) && (samples[i] matches Some(
                sample,
            ) ==> is_small(sample, pow2(149))),
    ensures
        is_small(mixed(samples, gains, count), count * pow2(210)),
        forall|i: int|
            0 <= i < count ==> (samples[i] matches Some(sample) ==> is_small(
                sample.product_spec(#[trigger] gains[i]),
                pow2(209),
            )),
    decreases count,
{
    lemma_bounds();
    lemma2_to64();
    lemma2_to64_rest();
    lemma_units_zero(23);
    lemma_pow2_pos(149);
    lemma_pow2_unfold(210);
    let total = mixed(samples, gains, count);
    if count == 0 {
        assert(total.value() == 0);
    } else {
        let less = (count - 1) as nat;
        a_mix_of_samples_is_finite(samples, gains, less);
        let gain = gains[count - 1];
        assert(is_small(gain, pow2(209)));
        let sample = match samples[count - 1] {
            Some(sample) => sample,
            None => Single { bits: 0 },
        };
        let product = sample.product_spec(gain);
        let m = units(23, sample.datum().mag as nat);
        let n = units(23, gain.datum().mag as nat);
        assert(m * n <= (1 * pow2(209)) * pow2(149)) by (nonlinear_arith)
            requires
                m <= pow2(149),
                n <= pow2(209),
        ;
        lemma_single_rounding_stops(m * n, pow2(149), 1, 209);
        assert(is_small(product, pow2(209)));
        let before = mixed(samples, gains, less);
        let exact = before.value() + product.value();
        let h = pow2(210);
        assert(less * h + h == count * h) by (nonlinear_arith)
            requires
                less + 1 == count,
        ;
        assert(abs(exact) <= count * h);
        assert((count * h) * 1 == count * h);
        lemma_single_rounding_stops(abs(exact), 1, count, 210);
        assert forall|i: int| 0 <= i < count implies (samples[i] matches Some(sample)
            ==> is_small(sample.product_spec(#[trigger] gains[i]), pow2(209))) by {}
    }
}

/// A mixer goes on until its batch is full, an input has to be asked for more, an input is
/// faulty, or every row of every input was taken: it never stops before.
pub proof fn a_mixer_stops_only_where_it_must(run: Mixing)
    requires
        run.frames.len() <= run.capacity,
        all_wf(run.inputs),
    ensures
        run.rest().frames.len() <= run.capacity,
        run.rest().gains == run.gains,
        run.rest().capacity == run.capacity,
        match run.rest().pause() {
            None => false,
            Some(Pause::Full) => run.rest().frames.len() == run.capacity,
            Some(Pause::Load) => exists|i: int|
                0 <= i < run.rest().inputs.len() && !(#[trigger] run.rest().inputs[i]).finished
                    && run.rest().inputs[i].row == run.rest().inputs[i].rows,
            Some(Pause::Fault(reason)) => exists|i: int|
                0 <= i < run.rest().inputs.len() && (#[trigger] run.rest().inputs[i]).reading()
                    == Err::<Option<(u64, Single)>, Seq<char>>(reason),
            Some(Pause::End) => forall|i: int|
                0 <= i < run.rest().inputs.len() ==> (#[trigger] run.rest().inputs[i]).finished
                    && run.rest().inputs[i].row == run.rest().inputs[i].rows,
        },
    decreases run.capacity - run.frames.len(),
{
    if run.pause().is_none() {
        taking_a_frame_passes_it(run.inputs, run.next_frame());
        a_mixer_stops_only_where_it_must(run.stepped(run.next_frame()));
    } else {
        every_frame_of_every_input_is_handed_out(run);
        lemma_fault_is_read(run.inputs, 0);
    }
}

/// A fault is that of some input.
proof fn lemma_fault_is_read(inputs: Seq<Walk>, from: nat)
    ensures
        merge_fault(inputs, from) matches Some(reason) ==> exists|i: int|
            from <= i < inputs.len() && (#[trigger] inputs[i]).reading() == Err::<
                Option<(u64, Single)>,
                Seq<char>,
            >(reason),
    decreases inputs.len() - from,
{
    if from < inputs.len() {
        lemma_fault_is_read(inputs, from + 1);
        if inputs[from as int].reading().is_err() {
            let reason = merge_fault(inputs, from).unwrap();
            assert(inputs[from as int].reading() == Err::<Option<(u64, Single)>, Seq<char>>(
                reason,
            ));
        }
    }
}

} // verus!
