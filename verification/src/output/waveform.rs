//! Drawing samples as an SVG image.
use crate::config::RenderConfig;
use crate::error::{Error, Result};
use crate::ieee::convert::{narrowed, widened};
use crate::ieee::fixed::{fixed, fixed_text};
use crate::ieee::number::{Double, Single};
use crate::output::{unwritable, validate_samples, writable};
use crate::text::{decimal, decimal_text};
use vstd::prelude::*;

verus! {

/// The image's width.
pub const WIDTH: usize = 1200;

/// The image's height.
pub const HEIGHT: usize = 320;

/// The space that is left free at every edge.
pub const PADDING: usize = 16;

/// The width without the free space.
pub const DRAWABLE_WIDTH: usize = 1168;

/// How many buckets samples are drawn in: one per sample, as far as there is room.
pub open spec fn bucket_count(samples: nat) -> nat {
    if samples < DRAWABLE_WIDTH {
        samples
    } else {
        DRAWABLE_WIDTH as nat
    }
}

/// Where a bucket starts.
pub open spec fn bucket_start(index: nat, samples: nat) -> nat {
    index * samples / bucket_count(samples)
}

/// The samples of a bucket.
pub open spec fn bucket(samples: Seq<Single>, index: nat) -> Seq<Single> {
    samples.subrange(
        bucket_start(index, samples.len()) as int,
        bucket_start(index + 1, samples.len()) as int,
    )
}

/// The least of the first `count` samples.
pub open spec fn lowest(samples: Seq<Single>, count: nat) -> Single
    decreases count,
{
    if count == 0 {
        Single { bits: 0x7f80_0000 }
    } else {
        let before = lowest(samples, (count - 1) as nat);
        if samples[count - 1].below(before) {
            samples[count - 1]
        } else {
            before
        }
    }
}

/// The greatest of the first `count` samples.
pub open spec fn highest(samples: Seq<Single>, count: nat) -> Single
    decreases count,
{
    if count == 0 {
        Single { bits: 0xff80_0000 }
    } else {
        let before = highest(samples, (count - 1) as nat);
        if before.below(samples[count - 1]) {
            samples[count - 1]
        } else {
            before
        }
    }
}

/// The sum of the first `count` samples, in double precision.
pub open spec fn total(samples: Seq<Single>, count: nat) -> Double
    decreases count,
{
    if count == 0 {
        Double { bits: 0 }
    } else {
        total(samples, (count - 1) as nat).sum_spec(widened(samples[count - 1]))
    }
}

/// The mean of some samples.
pub open spec fn mean(samples: Seq<Single>) -> Single {
    narrowed(
        total(samples, samples.len()).quotient_spec(Double::whole_spec(samples.len() as u64)),
    )
}

/// The least, the greatest and the mean of some samples.
#[derive(Clone, Copy, Debug)]
pub struct BucketSummary {
    /// The least.
    pub minimum: Single,
    /// The greatest.
    pub maximum: Single,
    /// The mean.
    pub mean: Single,
}

/// The least, the greatest and the mean of the samples from `from` up to `to`.
pub fn summarize_bucket(samples: &[Single], from: usize, to: usize) -> (r: BucketSummary)
    requires
        from <= to <= samples@.len(),
    ensures
        ({
            let part = samples@.subrange(from as int, to as int);
            r == (BucketSummary {
                minimum: lowest(part, part.len()),
                maximum: highest(part, part.len()),
                mean: mean(part),
            })
        }),
{
    let ghost part = samples@.subrange(from as int, to as int);
    let mut minimum: Single = Single { bits: 0x7f80_0000 };
    let mut maximum: Single = Single { bits: 0xff80_0000 };
    let mut sum: Double = Double { bits: 0 };
    let mut i: usize = from;
    while i < to
        invariant
            from <= i <= to <= samples@.len(),
            part == samples@.subrange(from as int, to as int),
            minimum == lowest(part, (i - from) as nat),
            maximum == highest(part, (i - from) as nat),
            sum == total(part, (i - from) as nat),
        decreases to - i,
    {
        let sample: Single = samples[i];
        assert(part[i - from] == sample);
        if sample.less_than(minimum) {
            minimum = sample;
        }
        if maximum.less_than(sample) {
            maximum = sample;
        }
        sum = sum.plus(sample.widen());
        i += 1;
    }
    let mean: Single = sum.over(Double::from_whole((to - from) as u64)).narrow();
    BucketSummary { minimum, maximum, mean }
}

/// Where a bucket is drawn from left to right.
pub open spec fn bucket_x_spec(index: nat, count: nat) -> Single {
    if count == 1 {
        Single::whole_spec(600)
    } else {
        Single::whole_spec(16).sum_spec(
            Single::whole_spec(index as u64).product_spec(Single::whole_spec(1168)).quotient_spec(
                Single::whole_spec((count - 1) as u64),
            ),
        )
    }
}

/// Where a bucket is drawn from left to right.
pub fn bucket_x(index: usize, count: usize) -> (x: Single)
    requires
        count > 0,
    ensures
        x == bucket_x_spec(index as nat, count as nat),
{
    if count == 1 {
        Single::from_whole(600)
    } else {
        Single::from_whole(16).plus(
            Single::from_whole(index as u64).times(Single::from_whole(1168)).over(
                Single::from_whole((count - 1) as u64),
            ),
        )
    }
}

/// Where a sample is drawn from top to bottom, one being at the top.
pub open spec fn sample_y_spec(sample: Single, scale: Single) -> Single {
    Single::whole_spec(160).difference_spec(
        sample.quotient_spec(scale).product_spec(Single::whole_spec(144)),
    )
}

/// Where a sample is drawn from top to bottom.
pub fn sample_y(sample: Single, scale: Single) -> (y: Single)
    ensures
        y == sample_y_spec(sample, scale),
{
    Single::from_whole(160).minus(sample.over(scale).times(Single::from_whole(144)))
}

/// The greatest magnitude of the first `count` samples, or that of one if it is greater.
pub open spec fn peak(samples: Seq<Single>, count: nat) -> u64
    decreases count,
{
    if count == 0 {
        0x3f80_0000
    } else {
        let before = peak(samples, (count - 1) as nat);
        if before < samples[count - 1].datum().mag {
            samples[count - 1].datum().mag
        } else {
            before
        }
    }
}

/// What the height of the drawing stands for.
pub open spec fn amplitude_scale_spec(samples: Seq<Single>) -> Single {
    Single { bits: peak(samples, samples.len()) as u32 }
}

/// What the height of the drawing stands for: the greatest magnitude, but at least one.
pub fn amplitude_scale(samples: &[Single]) -> (scale: Single)
    ensures
        scale == amplitude_scale_spec(samples@),
{
    let mut top: u64 = 0x3f80_0000;
    let mut i: usize = 0;
    while i < samples.len()
        invariant
            i <= samples@.len(),
            top == peak(samples@, i as nat),
            top <= 0x7fff_ffff,
        decreases samples@.len() - i,
    {
        let mag: u64 = samples[i].to_datum().mag;
        if top < mag {
            top = mag;
        }
        i += 1;
    }
    Single { bits: top as u32 }
}

/// How a bucket is drawn in the envelope.
pub open spec fn envelope_piece(samples: Seq<Single>, index: nat) -> Seq<char> {
    let scale = amplitude_scale_spec(samples);
    let part = bucket(samples, index);
    "M"@ + fixed(bucket_x_spec(index, bucket_count(samples.len())), 3) + ","@ + fixed(
        sample_y_spec(highest(part, part.len()), scale),
        3,
    ) + " V"@ + fixed(sample_y_spec(lowest(part, part.len()), scale), 3)
}

/// How a bucket is drawn in the line of means.
pub open spec fn mean_piece(samples: Seq<Single>, index: nat) -> Seq<char> {
    let scale = amplitude_scale_spec(samples);
    fixed(bucket_x_spec(index, bucket_count(samples.len())), 3) + ","@ + fixed(
        sample_y_spec(mean(bucket(samples, index)), scale),
        3,
    )
}

/// The envelope of the first `count` buckets.
pub open spec fn envelope(samples: Seq<Single>, count: nat) -> Seq<char>
    decreases count,
{
    if count == 0 {
        ""@
    } else if count == 1 {
        envelope(samples, 0) + envelope_piece(samples, 0)
    } else {
        envelope(samples, (count - 1) as nat) + " "@ + envelope_piece(samples, (count - 1) as nat)
    }
}

/// The line of means of the first `count` buckets.
pub open spec fn means(samples: Seq<Single>, count: nat) -> Seq<char>
    decreases count,
{
    if count == 0 {
        ""@
    } else if count == 1 {
        means(samples, 0) + mean_piece(samples, 0)
    } else {
        means(samples, (count - 1) as nat) + " "@ + mean_piece(samples, (count - 1) as nat)
    }
}

/// The image of some samples.
pub open spec fn waveform(samples: Seq<Single>, frame_count: u64) -> Seq<char> {
    let count = bucket_count(samples.len());
    "<?xml version=\"1.0\" encoding=\"UTF-8\"?>\n<svg xmlns=\"http://www.w3.org/2000/svg\" width=\"1200\" height=\"320\" viewBox=\"0 0 1200 320\">\n<rect width=\"1200\" height=\"320\" fill=\"#07111f\"/>\n<g id=\"waveform\" data-frame-count=\""@
        + decimal(frame_count as nat) + "\" data-bucket-count=\""@ + decimal(count)
        + "\" data-amplitude-scale=\""@ + fixed(amplitude_scale_spec(samples), 6)
        + "\">\n<line id=\"zero-baseline\" x1=\"16\" y1=\"160.000\" x2=\"1184\" y2=\"160.000\" stroke=\"#334155\" stroke-width=\"1\"/>\n<path id=\"waveform-envelope\" d=\""@
        + envelope(samples, count)
        + "\" fill=\"none\" stroke=\"#38bdf8\" stroke-width=\"1\" stroke-linecap=\"round\"/>\n<polyline id=\"waveform-mean\" points=\""@
        + means(samples, count)
        + "\" fill=\"none\" stroke=\"#e0f2fe\" stroke-width=\"1\" stroke-linejoin=\"round\"/>\n</g>\n</svg>\n"@
}

/// Buckets follow each other without a gap, none of them is empty, and together they
/// hold every sample once.
pub proof fn buckets_partition_the_samples(samples: nat, index: nat)
    requires
        samples > 0,
        index < bucket_count(samples),
    ensures
        bucket_start(0, samples) == 0,
        bucket_start(index, samples) < bucket_start(index + 1, samples) <= samples,
        bucket_start(bucket_count(samples), samples) == samples,
{
    let n = samples as int;
    let c = bucket_count(samples) as int;
    let i = index as int;
    assert(0 * n == 0) by (nonlinear_arith);
    vstd::arithmetic::div_mod::lemma_basic_div(0, c);
    vstd::arithmetic::div_mod::lemma_div_multiples_vanish(n, c);
    assert((i + 1) * n == i * n + n) by (nonlinear_arith);
    assert(i * n >= 0) by (nonlinear_arith)
        requires
            i >= 0,
            n >= 0,
    ;
    // A bucket spans at least one sample, as there are no more buckets than samples.
    vstd::arithmetic::div_mod::lemma_div_is_ordered(i * n + c, i * n + n, c);
    vstd::arithmetic::div_mod::lemma_add_mod_noop(i * n, c, c);
    assert((i * n + c) / c == i * n / c + 1) by {
        vstd::arithmetic::div_mod::lemma_div_plus_one(i * n, c);
    }
    assert((i + 1) * n <= c * n) by (nonlinear_arith)
        requires
            i + 1 <= c,
            n >= 0,
    ;
    vstd::arithmetic::div_mod::lemma_div_is_ordered((i + 1) * n, c * n, c);
}

/// Where a bucket starts.
fn find_bucket_start(index: usize, samples: usize, count: usize) -> (start: usize)
    requires
        count == bucket_count(samples as nat),
        0 < samples,
        index <= count,
    ensures
        start == bucket_start(index as nat, samples as nat),
        start <= samples,
{
    assert(index * samples <= 1168 * 0xffff_ffff_ffff_ffff) by (nonlinear_arith)
        requires
            index <= 1168,
            samples <= 0xffff_ffff_ffff_ffff,
    ;
    let product: u128 = index as u128 * samples as u128;
    proof {
        if index < count {
            buckets_partition_the_samples(samples as nat, index as nat);
        } else {
            buckets_partition_the_samples(samples as nat, 0);
        }
    }
    (product / count as u128) as usize
}

/// Draws samples as an SVG image. They must lie in [-1, 1].
pub fn waveform_svg(samples: &[Single], config: &RenderConfig) -> (r: Result<String>)
    ensures
        r.is_ok() == writable(samples@, config@.frame_count, true),
        r matches Ok(svg) ==> svg@ == waveform(samples@, config@.frame_count),
        r matches Err(error) ==> error matches Error::InvalidRender(reason) && unwritable(
            samples@,
            config@.frame_count,
            true,
            reason@,
        ),
{
    validate_samples(samples, config, true)?;
    let frame_count: u64 = config.frame_count();
    let count: usize = if samples.len() < DRAWABLE_WIDTH {
        samples.len()
    } else {
        DRAWABLE_WIDTH
    };
    let scale: Single = amplitude_scale(samples);
    let mut envelope_path: String = "".to_owned();
    let mut mean_points: String = "".to_owned();
    let mut index: usize = 0;
    while index < count
        invariant
            index <= count,
            count == bucket_count(samples@.len()),
            samples@.len() > 0,
            scale == amplitude_scale_spec(samples@),
            envelope_path@ == envelope(samples@, index as nat),
            mean_points@ == means(samples@, index as nat),
        decreases count - index,
    {
        let start: usize = find_bucket_start(index, samples.len(), count);
        let end: usize = find_bucket_start(index + 1, samples.len(), count);
        proof {
            buckets_partition_the_samples(samples@.len(), index as nat);
        }
        let summary: BucketSummary = summarize_bucket(samples, start, end);
        let x: String = fixed_text(bucket_x(index, count), 3);
        let maximum_y: String = fixed_text(sample_y(summary.maximum, scale), 3);
        let minimum_y: String = fixed_text(sample_y(summary.minimum, scale), 3);
        let mean_y: String = fixed_text(sample_y(summary.mean, scale), 3);
        if index > 0 {
            envelope_path = envelope_path.concat(" ");
            mean_points = mean_points.concat(" ");
        }
        let envelope_text: String = "M".to_owned().concat(x.as_str()).concat(",").concat(
            maximum_y.as_str(),
        ).concat(" V").concat(minimum_y.as_str());
        let mean_text: String = x.concat(",").concat(mean_y.as_str());
        assert(envelope_text@ == envelope_piece(samples@, index as nat));
        assert(mean_text@ == mean_piece(samples@, index as nat));
        envelope_path = envelope_path.concat(envelope_text.as_str());
        mean_points = mean_points.concat(mean_text.as_str());
        index += 1;
    }
    Ok(
        "<?xml version=\"1.0\" encoding=\"UTF-8\"?>\n<svg xmlns=\"http://www.w3.org/2000/svg\" width=\"1200\" height=\"320\" viewBox=\"0 0 1200 320\">\n<rect width=\"1200\" height=\"320\" fill=\"#07111f\"/>\n<g id=\"waveform\" data-frame-count=\"".to_owned().concat(
            decimal_text(frame_count).as_str(),
        ).concat("\" data-bucket-count=\"").concat(decimal_text(count as u64).as_str()).concat(
            "\" data-amplitude-scale=\"",
        ).concat(fixed_text(scale, 6).as_str()).concat(
            "\">\n<line id=\"zero-baseline\" x1=\"16\" y1=\"160.000\" x2=\"1184\" y2=\"160.000\" stroke=\"#334155\" stroke-width=\"1\"/>\n<path id=\"waveform-envelope\" d=\"",
        ).concat(envelope_path.as_str()).concat(
            "\" fill=\"none\" stroke=\"#38bdf8\" stroke-width=\"1\" stroke-linecap=\"round\"/>\n<polyline id=\"waveform-mean\" points=\"",
        ).concat(mean_points.as_str()).concat(
            "\" fill=\"none\" stroke=\"#e0f2fe\" stroke-width=\"1\" stroke-linejoin=\"round\"/>\n</g>\n</svg>\n",
        ),
    )
}

} // verus!
