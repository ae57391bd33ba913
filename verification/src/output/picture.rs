//! Where the parts of a waveform are drawn.
use crate::ieee::bounds::{
    lemma_rounded_between, lemma_rounded_exact, lemma_rounded_same, lemma_single_rounding_stops,
    lemma_widened,
};
use crate::ieee::constants::lemma_ones;
use crate::ieee::convert::widened;
use crate::ieee::datum::rounded;
use crate::ieee::format::{lemma_compose, lemma_units_increase, lemma_units_zero, units};
use crate::ieee::number::{lemma_bounds, Double, Single};
use crate::ieee::round::{double_spec, single_spec};
use crate::output::waveform::{
    bucket_x_spec, highest, lowest, mean, peak, sample_y_spec, total,
};
use crate::physical::frame::gain::lemma_narrowed;
use crate::physical::frame::node::normalized;
use vstd::arithmetic::power2::{
    lemma2_to64, lemma2_to64_rest, lemma_pow2_adds, lemma_pow2_pos, lemma_pow2_unfold, pow2,
};
use vstd::prelude::*;

verus! {

/// What some whole numbers are in single precision.
proof fn lemma_landmarks()
    ensures
        units(23, 0x4180_0000) == 16 * pow2(149),
        units(23, 0x4310_0000) == 144 * pow2(149),
        units(23, 0x4320_0000) == 160 * pow2(149),
        units(23, 0x4398_0000) == 304 * pow2(149),
        Single::whole_spec(144) == (Single { bits: 0x4310_0000 }),
        Single::whole_spec(160) == (Single { bits: 0x4320_0000 }),
{
    lemma2_to64();
    lemma2_to64_rest();
    lemma_bounds();
    let one = pow2(149);
    lemma_compose(23, 130, 16 * pow2(19));
    lemma_pow2_adds(19, 130);
    assert((16 * pow2(19)) * pow2(130) == 16 * one) by (nonlinear_arith)
        requires
            pow2(19) * pow2(130) == one,
    ;
    lemma_compose(23, 133, 144 * pow2(16));
    lemma_compose(23, 133, 160 * pow2(16));
    lemma_pow2_adds(16, 133);
    assert((144 * pow2(16)) * pow2(133) == 144 * one) by (nonlinear_arith)
        requires
            pow2(16) * pow2(133) == one,
    ;
    assert((160 * pow2(16)) * pow2(133) == 160 * one) by (nonlinear_arith)
        requires
            pow2(16) * pow2(133) == one,
    ;
    lemma_compose(23, 134, 304 * pow2(15));
    lemma_pow2_adds(15, 134);
    assert((304 * pow2(15)) * pow2(134) == 304 * one) by (nonlinear_arith)
        requires
            pow2(15) * pow2(134) == one,
    ;
    lemma_rounded_same(single_spec(), 0x4310_0000, 144 * one, 1);
    lemma_rounded_same(single_spec(), 0x4320_0000, 160 * one, 1);
}

/// A sample divided by one is the sample.
proof fn lemma_over_one(sample: Single)
    requires
        sample.finite(),
    ensures
        sample.quotient_spec(Single { bits: 0x3f80_0000 }) == sample,
{
    lemma_bounds();
    lemma_ones();
    lemma_pow2_pos(149);
    let u = units(23, sample.datum().mag as nat);
    lemma_rounded_same(single_spec(), sample.datum().mag as nat, u * pow2(149), pow2(149));
}

/// A sample in [-1, 1] is drawn inside the image, off its edges.
pub proof fn samples_stay_in_the_picture(sample: Single)
    requires
        normalized(sample),
    ensures
        ({
            let y = sample_y_spec(sample, Single { bits: 0x3f80_0000 });
            y.finite() && 16 * pow2(149) <= y.value() <= 304 * pow2(149)
        }),
{
    let one = pow2(149);
    let scale = Single { bits: 0x3f80_0000 };
    let half = Single::whole_spec(144);
    let center = Single::whole_spec(160);
    lemma_bounds();
    lemma_landmarks();
    lemma_over_one(sample);
    lemma_pow2_pos(149);
    lemma_units_zero(23);
    let u = units(23, sample.datum().mag as nat);
    // The offset from the centre is at most 144.
    assert(u * (144 * one) <= (144 * one) * one) by (nonlinear_arith)
        requires
            u <= one,
    ;
    lemma_rounded_between(single_spec(), u * (144 * one), one, 0x4310_0000);
    let offset = sample.product_spec(half);
    assert(offset.datum().mag <= 0x4310_0000);
    if offset.datum().mag < 0x4310_0000 {
        lemma_units_increase(23, offset.datum().mag as nat, 0x4310_0000);
    }
    let o = units(23, offset.datum().mag as nat);
    assert(o <= 144 * one);
    let exact: int = if offset.datum().negative {
        160 * one as int + o as int
    } else {
        160 * one as int - o as int
    };
    assert(16 * one <= exact <= 304 * one);
    lemma_rounded_between(single_spec(), exact as nat, 1, 0x4180_0000);
    lemma_rounded_between(single_spec(), exact as nat, 1, 0x4398_0000);
    let y = center.difference_spec(offset);
    assert(y.datum().mag == rounded(single_spec(), exact as nat, 1));
    let m = y.datum().mag as nat;
    if 0x4180_0000 < m {
        lemma_units_increase(23, 0x4180_0000, m);
    }
    if m < 0x4398_0000 {
        lemma_units_increase(23, m, 0x4398_0000);
    }
}

/// Whether every sample lies in [-1, 1].
pub open spec fn all_normalized(samples: Seq<Single>) -> bool {
    forall|i: int| 0 <= i < samples.len() ==> normalized(#[trigger] samples[i])
}

/// The least and the greatest of some samples in [-1, 1] are there too, and no sample is
/// beyond them.
pub proof fn extremes_bound_the_samples(samples: Seq<Single>, count: nat)
    requires
        all_normalized(samples),
        0 < count <= samples.len(),
    ensures
        normalized(lowest(samples, count)),
        normalized(highest(samples, count)),
        forall|i: int|
            0 <= i < count ==> lowest(samples, count).value() <= (#[trigger] samples[i]).value()
                <= highest(samples, count).value(),
    decreases count,
{
    let last = samples[count - 1];
    assert(normalized(last));
    lemma_bounds();
    lemma_ones();
    if count == 1 {
        reveal_with_fuel(lowest, 2);
        reveal_with_fuel(highest, 2);
        lemma_units_increase(23, 0x3f80_0000, 0x7f80_0000);
        assert((Single { bits: 0x7f80_0000 }).value() > pow2(149));
        assert((Single { bits: 0xff80_0000 }).value() < -(pow2(149) as int));
    } else {
        extremes_bound_the_samples(samples, (count - 1) as nat);
    }
}

/// A sum of samples in [-1, 1] is at most their count, as long as that has its place in
/// double precision.
pub(crate) proof fn lemma_total(samples: Seq<Single>, count: nat)
    requires
        all_normalized(samples),
        count <= samples.len(),
        count < pow2(53),
    ensures
        total(samples, count).finite(),
        -(count * pow2(1074)) <= total(samples, count).value() <= count * pow2(1074),
    decreases count,
{
    let one = pow2(1074);
    lemma_bounds();
    lemma_units_zero(52);
    if count > 0 {
        let before = total(samples, (count - 1) as nat);
        let last = samples[count - 1];
        lemma_total(samples, (count - 1) as nat);
        assert(normalized(last));
        lemma_widened(last);
        lemma_pow2_adds(149, 925);
        let w = widened(last);
        let l = last.value();
        let p = pow2(925) as int;
        let h = pow2(149) as int;
        assert(-(h * p) <= l * p <= h * p) by (nonlinear_arith)
            requires
                -h <= l <= h,
                p >= 0,
        ;
        let exact = before.value() + w.value();
        assert((count - 1) * one + one == count * one) by (nonlinear_arith);
        assert(-(count * one) <= exact <= count * one);
        lemma_pow2_unfold(53);
        lemma_rounded_exact(count, 1074);
        let mag = rounded(double_spec(), count * one, 1) as nat;
        if exact != 0 {
            let size = if exact < 0 {
                -exact
            } else {
                exact
            };
            lemma_rounded_between(double_spec(), size as nat, 1, mag);
            let got = rounded(double_spec(), size as nat, 1) as nat;
            if got < mag {
                lemma_units_increase(52, got, mag);
            }
        } else {
            assert(count * one >= 0);
        }
    } else {
        assert(0 * one == 0) by (nonlinear_arith);
    }
}

/// The mean of samples in [-1, 1] is there too, as long as their count has its place in
/// double precision.
pub proof fn mean_stays_in_range(samples: Seq<Single>)
    requires
        all_normalized(samples),
        0 < samples.len() < pow2(53),
    ensures
        normalized(mean(samples)),
{
    let n = samples.len();
    let one = pow2(1074);
    lemma_bounds();
    lemma_ones();
    lemma_pow2_pos(1074);
    lemma_units_zero(52);
    lemma_total(samples, n);
    lemma2_to64();
    lemma2_to64_rest();
    lemma_pow2_unfold(53);
    lemma_rounded_exact(n, 1074);
    let sum = total(samples, n);
    let count = Double::whole_spec(n as u64);
    let d = units(52, count.datum().mag as nat);
    assert(d == n * one);
    assert(n * one > 0) by (nonlinear_arith)
        requires
            n > 0,
            one > 0,
    ;
    assert(count.datum().mag != 0);
    let t = units(52, sum.datum().mag as nat);
    assert(t <= n * one);
    assert(t * one <= one * d) by (nonlinear_arith)
        requires
            t <= d,
    ;
    lemma_rounded_between(double_spec(), t * one, d, 0x3ff0_0000_0000_0000);
    let ratio = sum.quotient_spec(count);
    assert(ratio.datum().mag <= 0x3ff0_0000_0000_0000);
    if ratio.datum().mag < 0x3ff0_0000_0000_0000 {
        lemma_units_increase(52, ratio.datum().mag as nat, 0x3ff0_0000_0000_0000);
    }
    lemma_narrowed(ratio);
}

/// The drawing of samples in [-1, 1] is not scaled.
pub proof fn normalized_samples_are_drawn_to_scale(samples: Seq<Single>, count: nat)
    requires
        all_normalized(samples),
        count <= samples.len(),
    ensures
        peak(samples, count) == 0x3f80_0000,
    decreases count,
{
    lemma_ones();
    if count > 0 {
        normalized_samples_are_drawn_to_scale(samples, (count - 1) as nat);
        let last = samples[count - 1];
        assert(normalized(last));
        if last.datum().mag > 0x3f80_0000 {
            lemma_units_increase(23, 0x3f80_0000, last.datum().mag as nat);
        }
    }
}

/// A small whole number is itself in single precision.
pub(crate) proof fn lemma_small_whole(value: u64)
    requires
        value < 0x100_0000,
    ensures
        Single::whole_spec(value).finite(),
        !Single::whole_spec(value).datum().negative,
        units(23, Single::whole_spec(value).datum().mag as nat) == value * pow2(149),
{
    lemma_bounds();
    lemma2_to64();
    lemma2_to64_rest();
    lemma_single_rounding_stops(value as nat * pow2(149), 1, value as nat, 149);
}

/// How far behind the left edge of the drawing a bucket is, before it is added to the
/// edge: at most `halves` halves where the exact quotient is, and at least so many where
/// that is.
proof fn lemma_bucket_offset(index: nat, count: nat, halves: nat)
    requires
        1 < count <= 1168,
        index < count,
        halves <= 4096,
    ensures
        ({
            let offset = Single::whole_spec(index as u64).product_spec(
                Single::whole_spec(1168),
            ).quotient_spec(Single::whole_spec((count - 1) as u64));
            let worth = units(23, offset.datum().mag as nat);
            &&& offset.finite()
            &&& !offset.datum().negative
            &&& 2336 * index <= halves * (count - 1) ==> worth <= halves * pow2(148)
            &&& halves * (count - 1) <= 2336 * index ==> halves * pow2(148) <= worth
        }),
{
    let one = pow2(149);
    let half = pow2(148);
    let d = (count - 1) as nat;
    let i = Single::whole_spec(index as u64);
    let w = Single::whole_spec(1168);
    let c = Single::whole_spec(d as u64);
    lemma_bounds();
    lemma2_to64();
    lemma2_to64_rest();
    lemma_pow2_pos(148);
    lemma_pow2_unfold(149);
    lemma_units_zero(23);
    lemma_small_whole(index as u64);
    lemma_small_whole(1168);
    lemma_small_whole(d as u64);
    // The product is a whole number that single precision holds.
    let n = (index * 1168) as nat;
    assert((index * one) * (1168 * one) == (n * one) * one) by (nonlinear_arith)
        requires
            n == index * 1168,
    ;
    lemma_single_rounding_stops((n * one) * one, one, n, 149);
    let product = i.product_spec(w);
    assert(units(23, product.datum().mag as nat) == n * one);
    assert(d * one > 0) by (nonlinear_arith)
        requires
            d > 0,
            one > 0,
    ;
    assert(c.datum().mag != 0);
    // The quotient is rounded.
    let num = (n * one) * one;
    let den = d * one;
    let offset = product.quotient_spec(c);
    assert(2 * n <= 4096 * d ==> num <= (4096 * half) * den) by (nonlinear_arith)
        requires
            num == (n * one) * one,
            den == d * one,
            one == 2 * half,
    ;
    assert(n <= 1168 * d) by (nonlinear_arith)
        requires
            n == index * 1168,
            index <= d,
    ;
    lemma_single_rounding_stops(num, den, 4096, 148);
    lemma_single_rounding_stops(num, den, halves, 148);
    assert(2 * n <= halves * d ==> num <= (halves * half) * den) by (nonlinear_arith)
        requires
            num == (n * one) * one,
            den == d * one,
            one == 2 * half,
    ;
    assert(halves * d <= 2 * n ==> (halves * half) * den <= num) by (nonlinear_arith)
        requires
            num == (n * one) * one,
            den == d * one,
            one == 2 * half,
    ;
}

/// Where a bucket is, in halves: the exact place bounds the rounded one.
proof fn lemma_bucket_place(index: nat, count: nat, halves: nat)
    requires
        1 < count <= 1168,
        index < count,
        halves <= 4096,
    ensures
        ({
            let x = bucket_x_spec(index, count);
            &&& x.finite()
            &&& 2336 * index <= halves * (count - 1) ==> x.value() <= (32 + halves) * pow2(148)
            &&& halves * (count - 1) <= 2336 * index ==> (32 + halves) * pow2(148) <= x.value()
        }),
{
    let half = pow2(148);
    let offset = Single::whole_spec(index as u64).product_spec(
        Single::whole_spec(1168),
    ).quotient_spec(Single::whole_spec((count - 1) as u64));
    let edge = Single::whole_spec(16);
    lemma_bounds();
    lemma2_to64();
    lemma2_to64_rest();
    lemma_pow2_pos(148);
    lemma_pow2_unfold(149);
    lemma_units_zero(23);
    lemma_small_whole(16);
    lemma_bucket_offset(index, count, halves);
    lemma_bucket_offset(index, count, 4096);
    assert(2336 * index <= 4096 * (count - 1));
    let o = units(23, offset.datum().mag as nat);
    let exact: nat = 32 * half + o;
    assert(o <= 4096 * half);
    assert((32 + 4096) * half == 32 * half + 4096 * half) by (nonlinear_arith);
    assert((32 + halves) * half == 32 * half + halves * half) by (nonlinear_arith);
    lemma_single_rounding_stops(exact, 1, 32 + 4096, 148);
    lemma_single_rounding_stops(exact, 1, 32 + halves, 148);
    let x = edge.sum_spec(offset);
    assert(edge.value() + offset.value() == exact);
    assert(exact > 0);
    assert(x.datum().mag == rounded(single_spec(), exact, 1));
}

/// Buckets are drawn inside the image, off its edges: from 16 to 1184.
pub proof fn buckets_stay_in_the_picture(index: nat, count: nat)
    requires
        0 < count <= 1168,
        index < count,
    ensures
        bucket_x_spec(index, count).finite(),
        16 * pow2(149) <= bucket_x_spec(index, count).value() <= 1184 * pow2(149),
{
    lemma_pow2_unfold(149);
    lemma_pow2_pos(148);
    if count == 1 {
        lemma_small_whole(600);
    } else {
        lemma_bucket_place(index, count, 0);
        lemma_bucket_place(index, count, 2336);
        assert(2336 * index <= 2336 * (count - 1));
        let half = pow2(148);
        assert(32 * half == 16 * (2 * half)) by (nonlinear_arith);
        assert(2368 * half == 1184 * (2 * half)) by (nonlinear_arith);
    }
}

/// Buckets are drawn from left to right, each to the right of the one before.
pub proof fn buckets_are_drawn_from_left_to_right(index: nat, count: nat)
    requires
        count <= 1168,
        index + 1 < count,
    ensures
        bucket_x_spec(index, count).value() < bucket_x_spec(index + 1, count).value(),
{
    let d = (count - 1) as nat;
    let twice = (2336 * index) as nat;
    // Two neighbours are more than one apart, so that two multiples of a half lie between.
    let halves = ((twice + d - 1) / d as int) as nat;
    vstd::arithmetic::div_mod::lemma_fundamental_div_mod(twice + d - 1, d as int);
    vstd::arithmetic::div_mod::lemma_mod_bound(twice + d - 1, d as int);
    let q = halves as int;
    let r = (twice + d - 1) % d as int;
    assert(q * d == d * q) by (nonlinear_arith);
    assert(twice <= q * d);
    assert((q + 1) * d == q * d + d) by (nonlinear_arith);
    assert((q + 1) * d <= twice + 2336);
    assert(2336 * (index + 1) == twice + 2336);
    assert(q + 1 <= 4096) by (nonlinear_arith)
        requires
            (q + 1) * d <= twice + 2336,
            twice == 2336 * index,
            index + 1 <= d,
            d > 0,
    ;
    lemma_bucket_place(index, count, halves);
    lemma_bucket_place(index + 1, count, halves + 1);
    let half = pow2(148);
    lemma_pow2_pos(148);
    assert((32 + halves) * half < (32 + (halves + 1)) * half) by (nonlinear_arith)
        requires
            half > 0,
    ;
}

} // verus!
