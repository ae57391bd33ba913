//! What a drawing shows of the samples.
use crate::ieee::accuracy::{
    is_rounded, narrowing_is_accurate, quotients_are_accurate, single_differences_are_accurate,
    single_products_are_accurate, single_quotients_are_accurate, single_sums_are_accurate,
    sums_are_accurate, wholes_are_accurate,
};
use crate::ieee::bounds::{lemma_single_rounding_stops, lemma_whole, lemma_widened};
use crate::ieee::closeness::lemma_abs_product;
use crate::ieee::constants::lemma_ones;
use crate::ieee::convert::widened;
use crate::ieee::fixed::fixed;
use crate::ieee::format::{lemma_units_increase, lemma_units_zero, units};
use crate::ieee::number::{lemma_bounds, Double, Single};
use crate::output::picture::{
    all_normalized, lemma_small_whole, lemma_total, mean_stays_in_range,
};
use crate::output::waveform::{
    amplitude_scale_spec, bucket, bucket_count, bucket_start, bucket_x_spec,
    buckets_partition_the_samples, envelope, highest, lowest, mean, means, peak, sample_y_spec,
    total, waveform,
};
use crate::physical::frame::node::normalized;
use crate::text::decimal;
use vstd::arithmetic::mul::lemma_mul_inequality_converse;
use vstd::arithmetic::power2::{
    lemma2_to64, lemma2_to64_rest, lemma_pow2_adds, lemma_pow2_pos, pow2,
};
use vstd::math::abs;
use vstd::prelude::*;

verus! {

/// Whether every sample is finite.
pub open spec fn all_finite(samples: Seq<Single>) -> bool {
    forall|i: int| 0 <= i < samples.len() ==> (#[trigger] samples[i]).finite()
}

/// The magnitude of the largest of the first samples, or of one.
proof fn lemma_peak(samples: Seq<Single>, count: nat)
    requires
        all_finite(samples),
        count <= samples.len(),
    ensures
        0x3f80_0000 <= peak(samples, count) < 0x7f80_0000,
        forall|i: int|
            0 <= i < count ==> (#[trigger] samples[i]).datum().mag <= peak(samples, count),
        peak(samples, count) == 0x3f80_0000 || exists|i: int|
            0 <= i < count && (#[trigger] samples[i]).datum().mag == peak(samples, count),
    decreases count,
{
    lemma_bounds();
    if count > 0 {
        let less = (count - 1) as nat;
        lemma_peak(samples, less);
        assert(samples[count - 1].finite());
        if peak(samples, count) == peak(samples, less) && peak(samples, less) != 0x3f80_0000 {
            let i = choose|i: int|
                0 <= i < less && (#[trigger] samples[i]).datum().mag == peak(samples, less);
            assert(samples[i].datum().mag == peak(samples, count));
        }
    }
}

/// Magnitudes are in the order of their values.
proof fn lemma_size_order(a: nat, b: nat)
    requires
        a <= b,
    ensures
        units(23, a) <= units(23, b),
{
    if a < b {
        lemma_units_increase(23, a, b);
    }
}

/// The scale of a drawing is the size of its largest sample, or one where all are smaller.
pub proof fn the_scale_is_the_largest_size(samples: Seq<Single>)
    requires
        all_finite(samples),
    ensures
        amplitude_scale_spec(samples).finite(),
        amplitude_scale_spec(samples).value() >= pow2(149),
        forall|i: int|
            0 <= i < samples.len() ==> abs((#[trigger] samples[i]).value())
                <= amplitude_scale_spec(samples).value(),
        amplitude_scale_spec(samples).value() == pow2(149) || exists|i: int|
            0 <= i < samples.len() && abs((#[trigger] samples[i]).value()) == amplitude_scale_spec(
                samples,
            ).value(),
{
    let n = samples.len();
    let top = peak(samples, n);
    let scale = amplitude_scale_spec(samples);
    lemma_bounds();
    lemma_ones();
    lemma_peak(samples, n);
    assert(scale.value() == units(23, top as nat));
    lemma_size_order(0x3f80_0000, top as nat);
    assert forall|i: int| 0 <= i < n implies abs((#[trigger] samples[i]).value())
        <= scale.value() by {
        assert(samples[i].datum().mag <= top);
        lemma_size_order(samples[i].datum().mag as nat, top as nat);
    }
    if top != 0x3f80_0000 {
        let i = choose|i: int| 0 <= i < n && (#[trigger] samples[i]).datum().mag == top;
        assert(abs(samples[i].value()) == scale.value());
    }
}

/// The lowest of some samples is one of them, and none is below it; the highest is one of
/// them, and none is above it.
pub proof fn extremes_are_samples(samples: Seq<Single>, count: nat)
    requires
        all_finite(samples),
        0 < count <= samples.len(),
    ensures
        exists|i: int| 0 <= i < count && #[trigger] samples[i] == lowest(samples, count),
        exists|i: int| 0 <= i < count && #[trigger] samples[i] == highest(samples, count),
        forall|i: int|
            0 <= i < count ==> lowest(samples, count).value() <= (#[trigger] samples[i]).value()
                <= highest(samples, count).value(),
    decreases count,
{
    let last = samples[count - 1];
    assert(last.finite());
    lemma_bounds();
    if count == 1 {
        reveal_with_fuel(lowest, 2);
        reveal_with_fuel(highest, 2);
        lemma_units_increase(23, last.datum().mag as nat, 0x7f80_0000);
        assert(samples[0] == lowest(samples, 1));
        assert(samples[0] == highest(samples, 1));
    } else {
        let less = (count - 1) as nat;
        extremes_are_samples(samples, less);
        let i = choose|i: int| 0 <= i < less && #[trigger] samples[i] == lowest(samples, less);
        let j = choose|j: int| 0 <= j < less && #[trigger] samples[j] == highest(samples, less);
        assert(samples[i].finite() && samples[j].finite());
        if lowest(samples, count) == last {
            assert(samples[count - 1] == lowest(samples, count));
        } else {
            assert(samples[i] == lowest(samples, count));
        }
        if highest(samples, count) == last {
            assert(samples[count - 1] == highest(samples, count));
        } else {
            assert(samples[j] == highest(samples, count));
        }
    }
}

/// Buckets share the samples evenly: there are as many as samples, up to the width of the
/// drawing, and each starts at its share of the samples.
pub proof fn buckets_share_the_samples(samples: Seq<Single>, index: nat)
    requires
        samples.len() > 0,
        index < bucket_count(samples.len()),
    ensures
        bucket_count(samples.len()) == if samples.len() < 1168 {
            samples.len()
        } else {
            1168
        },
        bucket_start(index, samples.len()) * bucket_count(samples.len()) <= index * samples.len(),
        index * samples.len() < (bucket_start(index, samples.len()) + 1) * bucket_count(
            samples.len(),
        ),
        bucket(samples, index).len() == bucket_start(index + 1, samples.len()) - bucket_start(
            index,
            samples.len(),
        ),
        forall|j: int|
            0 <= j < bucket(samples, index).len() ==> #[trigger] bucket(samples, index)[j]
                == samples[bucket_start(index, samples.len()) + j],
{
    let n = samples.len() as int;
    let c = bucket_count(samples.len()) as int;
    let x = index * n;
    buckets_partition_the_samples(samples.len(), index);
    assert(x >= 0) by (nonlinear_arith)
        requires
            x == index * n,
            n >= 0,
    ;
    vstd::arithmetic::div_mod::lemma_fundamental_div_mod(x, c);
    vstd::arithmetic::div_mod::lemma_mod_bound(x, c);
    let q = x / c;
    assert(c * q == q * c) by (nonlinear_arith);
    assert((q + 1) * c == q * c + c) by (nonlinear_arith);
}

/// A sample is drawn 144 above or below the middle, 160, by its share of the scale, to a
/// thousandth of a unit and better.
pub proof fn samples_are_drawn_by_their_size(sample: Single, scale: Single)
    requires
        sample.finite(),
        scale.finite(),
        scale.value() >= pow2(149),
        abs(sample.value()) <= scale.value(),
    ensures
        ({
            let one = pow2(149) as int;
            let y = sample_y_spec(sample, scale);
            &&& y.finite()
            &&& pow2(24) * abs(
                y.value() * scale.value() - (160 * one * scale.value() - 144 * one
                    * sample.value()),
            ) <= 600 * one * scale.value()
        }),
{
    let u = pow2(149) as int;
    let w = pow2(24) as int;
    let c = scale.value();
    let s = sample.value();
    lemma_bounds();
    lemma2_to64();
    lemma2_to64_rest();
    lemma_pow2_pos(149);
    lemma_units_zero(23);
    lemma_small_whole(144);
    lemma_small_whole(160);
    let q = sample.quotient_spec(scale);
    let m = units(23, sample.datum().mag as nat);
    assert(m * pow2(149) <= (1 * pow2(149)) * (c as nat)) by (nonlinear_arith)
        requires
            m <= c,
            c >= 0,
    ;
    lemma_single_rounding_stops(m * pow2(149), c as nat, 1, 149);
    assert(scale.datum().mag != 0);
    assert(q.finite());
    assert(abs(q.value()) <= u);
    single_quotients_are_accurate(sample, scale);
    let factor = Single::whole_spec(144);
    let p = q.product_spec(factor);
    let k = units(23, q.datum().mag as nat);
    let f = units(23, factor.datum().mag as nat);
    assert(k * f <= (144 * pow2(149)) * pow2(149)) by (nonlinear_arith)
        requires
            k <= pow2(149),
            f == 144 * pow2(149),
    ;
    lemma_single_rounding_stops(k * f, pow2(149), 144, 149);
    assert(p.finite());
    assert(abs(p.value()) <= 144 * u);
    single_products_are_accurate(q, factor);
    let middle = Single::whole_spec(160);
    let y = middle.difference_spec(p);
    let exact = middle.value() - p.value();
    assert(abs(exact) <= 304 * u);
    assert((304 * pow2(149)) * 1 == 304 * pow2(149));
    lemma_single_rounding_stops(abs(exact), 1, 304, 149);
    assert(p.negated().value() == -p.value());
    assert(y.finite() && abs(y.value()) <= 304 * u);
    single_differences_are_accurate(middle, p);
    lemma_drawn(s, c, q.value(), p.value(), y.value());
}

/// How the three roundings of a place add up.
proof fn lemma_drawn(s: int, c: int, q: int, p: int, y: int)
    requires
        c >= pow2(149),
        abs(q) <= pow2(149),
        abs(p) <= 144 * pow2(149),
        abs(y) <= 304 * pow2(149),
        is_rounded(q, s * pow2(149), c, 24),
        is_rounded(p, q * (144 * pow2(149)), pow2(149) as int, 24),
        is_rounded(y, 160 * pow2(149) - p, 1, 24),
    ensures
        pow2(24) * abs(y * c - (160 * pow2(149) * c - 144 * pow2(149) * s)) <= 600 * pow2(149) * c,
{
    let u = pow2(149) as int;
    let w = pow2(24) as int;
    lemma2_to64();
    lemma2_to64_rest();
    lemma_pow2_adds(24, 125);
    lemma_pow2_adds(16, 109);
    lemma_pow2_pos(109);
    assert(u >= 0x1_0000 * w) by (nonlinear_arith)
        requires
            u == w * pow2(125),
            pow2(125) == 0x1_0000 * pow2(109),
            pow2(109) >= 1,
            w > 0,
    ;
    let e1 = q * c - s * u;
    let e2 = p - 144 * q;
    let e3 = y - (160 * u - p);
    assert(y * 1 == y);
    // The product is off by as much in units of one.
    assert(w * abs(e2) <= abs(p) + w) by {
        assert(p * u - q * (144 * u) == e2 * u) by (nonlinear_arith)
            requires
                e2 == p - 144 * q,
        ;
        lemma_abs_product(e2, u);
        let (a, b) = (w * abs(e2), abs(p) + w);
        assert(a * u == w * (abs(e2) * u)) by (nonlinear_arith)
            requires
                a == w * abs(e2),
        ;
        lemma_mul_inequality_converse(a, b, u);
    }
    let off = y * c - (160 * u * c - 144 * u * s);
    assert(off == e3 * c - e2 * c - 144 * e1) by {
        assert((y - (160 * u - p)) * c == y * c - 160 * u * c + p * c) by (nonlinear_arith);
        assert((p - 144 * q) * c == p * c - 144 * (q * c)) by (nonlinear_arith);
        assert(144 * (s * u) == 144 * u * s) by (nonlinear_arith);
    }
    lemma_abs_product(e3, c);
    lemma_abs_product(e2, c);
    let (a, b, d) = (abs(e3) * c, abs(e2) * c, 144 * abs(e1));
    assert(abs(off) <= a + b + d);
    assert(w * a <= (305 * u) * c) by (nonlinear_arith)
        requires
            a == abs(e3) * c,
            w * abs(e3) <= 304 * u + w,
            w <= u,
            c > 0,
    ;
    assert(w * b <= (145 * u) * c) by (nonlinear_arith)
        requires
            b == abs(e2) * c,
            w * abs(e2) <= 144 * u + w,
            w <= u,
            c > 0,
    ;
    assert(w * d <= (145 * u) * c) by (nonlinear_arith)
        requires
            d == 144 * abs(e1),
            w * abs(e1) <= (abs(q) + w) * c,
            abs(q) <= u,
            0x1_0000 * w <= u,
            c > 0,
            w > 0,
    ;
    assert(w * abs(off) <= w * a + w * b + w * d) by (nonlinear_arith)
        requires
            abs(off) <= a + b + d,
            w > 0,
    ;
    assert((305 * u) * c + (145 * u) * c + (145 * u) * c <= 600 * u * c) by (nonlinear_arith)
        requires
            u > 0,
            c > 0,
    ;
}

/// Buckets are drawn at even distances from 16 to 1184, to a thousandth of a unit and
/// better; a single one is drawn in the middle.
pub proof fn buckets_are_drawn_evenly(index: nat, count: nat)
    requires
        0 < count <= 1168,
        index < count,
    ensures
        count == 1 ==> bucket_x_spec(index, count).value() == 600 * pow2(149),
        count > 1 ==> pow2(24) * abs(
            bucket_x_spec(index, count).value() * (count - 1) - (16 * (count - 1) + 1168 * index)
                * pow2(149),
        ) <= 2400 * pow2(149) * (count - 1),
{
    let u = pow2(149) as int;
    let w = pow2(24) as int;
    lemma_bounds();
    lemma2_to64();
    lemma2_to64_rest();
    lemma_pow2_pos(149);
    lemma_units_zero(23);
    if count == 1 {
        lemma_small_whole(600);
    } else {
        let d = (count - 1) as nat;
        let i = Single::whole_spec(index as u64);
        let width = Single::whole_spec(1168);
        let c = Single::whole_spec(d as u64);
        let edge = Single::whole_spec(16);
        lemma_small_whole(index as u64);
        lemma_small_whole(1168);
        lemma_small_whole(d as u64);
        lemma_small_whole(16);
        let h = pow2(149);
        let n = (index * 1168) as nat;
        let along = i.product_spec(width);
        assert((index * h) * (1168 * h) == (n * h) * h) by (nonlinear_arith)
            requires
                n == index * 1168,
        ;
        lemma_single_rounding_stops((n * h) * h, h, n, 149);
        assert(along.finite() && along.value() == n * h);
        let q = along.quotient_spec(c);
        assert(d * h > 0) by (nonlinear_arith)
            requires
                d > 0,
                h > 0,
        ;
        assert(c.value() == d * h && c.datum().mag != 0);
        assert((n * h) * h <= (1168 * h) * (d * h)) by (nonlinear_arith)
            requires
                n == index * 1168,
                index <= d,
        ;
        lemma_single_rounding_stops((n * h) * h, d * h, 1168, 149);
        assert(q.finite() && 0 <= q.value() <= 1168 * u);
        single_quotients_are_accurate(along, c);
        let x = edge.sum_spec(q);
        let exact = edge.value() + q.value();
        assert(exact > 0);
        assert((1184 * h) * 1 == 1184 * h);
        lemma_single_rounding_stops(exact as nat, 1, 1184, 149);
        assert(x.finite() && 0 <= x.value() <= 1184 * u);
        single_sums_are_accurate(edge, q);
        lemma_pow2_adds(24, 125);
        lemma_pow2_pos(125);
        assert(w <= u) by (nonlinear_arith)
            requires
                u == w * pow2(125),
                pow2(125) >= 1,
                w > 0,
        ;
        let dd = d as int;
        let e1 = q.value() * dd - n * u;
        let e2 = x.value() - exact;
        assert(w * abs(e1) <= (1169 * u) * dd) by {
            let qv = q.value();
            assert(qv * (dd * u) - (n * u) * u == e1 * u) by (nonlinear_arith)
                requires
                    e1 == qv * dd - n * u,
            ;
            lemma_abs_product(e1, u);
            let (a, b) = (w * abs(e1), (abs(qv) + w) * dd);
            assert(a * u == w * (abs(e1) * u)) by (nonlinear_arith)
                requires
                    a == w * abs(e1),
            ;
            assert(b * u == (abs(qv) + w) * (dd * u)) by (nonlinear_arith)
                requires
                    b == (abs(qv) + w) * dd,
            ;
            lemma_mul_inequality_converse(a, b, u);
            assert(b <= (1169 * u) * dd) by (nonlinear_arith)
                requires
                    b == (abs(qv) + w) * dd,
                    abs(qv) <= 1168 * u,
                    w <= u,
                    dd > 0,
            ;
        }
        assert(x.value() * 1 == x.value());
        let off = x.value() * dd - (16 * dd + 1168 * index) * u;
        let xv = x.value();
        let qv = q.value();
        assert(off == e2 * dd + e1) by {
            assert((xv - (16 * u + qv)) * dd == xv * dd - (16 * dd) * u - qv * dd)
                by (nonlinear_arith);
            assert((16 * dd + 1168 * index) * u == (16 * dd) * u + n * u) by (nonlinear_arith)
                requires
                    n == index * 1168,
            ;
        }
        lemma_abs_product(e2, dd);
        assert(w * (abs(e2) * dd) <= (1185 * u) * dd) by (nonlinear_arith)
            requires
                w * abs(e2) <= (abs(xv) + w) * 1,
                abs(xv) <= 1184 * u,
                w <= u,
                dd > 0,
        ;
        let (a, b) = (abs(e2) * dd, abs(e1) as int);
        assert(w * abs(off) <= w * a + w * b) by (nonlinear_arith)
            requires
                abs(off) <= a + b,
                w > 0,
        ;
        assert((1185 * u) * dd + (1169 * u) * dd <= 2400 * u * dd) by (nonlinear_arith)
            requires
                u > 0,
                dd > 0,
        ;
    }
}

/// The exact sum of the first samples.
pub open spec fn exact_total(samples: Seq<Single>, count: nat) -> int
    decreases count,
{
    if count == 0 {
        0
    } else {
        exact_total(samples, (count - 1) as nat) + samples[count - 1].value()
    }
}

/// A sum of samples in [-1, 1] is the exact one, but for a rounding a sample.
proof fn lemma_total_off(samples: Seq<Single>, count: nat, most: nat)
    requires
        all_normalized(samples),
        count <= samples.len(),
        count <= most < pow2(53),
    ensures
        pow2(53) * abs(total(samples, count).value() - exact_total(samples, count) * pow2(925))
            <= count * (most * pow2(1074) + pow2(53)),
    decreases count,
{
    let g = pow2(925) as int;
    let u = pow2(1074) as int;
    let w = pow2(53) as int;
    let unit = most * u + w;
    lemma_bounds();
    lemma_units_zero(52);
    lemma_pow2_pos(1074);
    lemma_pow2_pos(53);
    lemma_total(samples, count);
    if count == 0 {
        assert(0 * g == 0);
        assert(w * 0 == 0);
        assert(0 * unit == 0);
    } else {
        let less = (count - 1) as nat;
        let last = samples[count - 1];
        assert(normalized(last));
        lemma_total(samples, less);
        lemma_total_off(samples, less, most);
        lemma_widened(last);
        let before = total(samples, less);
        let after = total(samples, count);
        sums_are_accurate(before, widened(last));
        let exact = exact_total(samples, less);
        let e1 = before.value() - exact * g;
        let e2 = after.value() - (before.value() + last.value() * g);
        assert(after.value() * 1 == after.value());
        assert((exact + last.value()) * g == exact * g + last.value() * g) by (nonlinear_arith);
        assert(abs(after.value()) <= count * u);
        assert(count * u <= most * u) by (nonlinear_arith)
            requires
                count <= most,
                u > 0,
        ;
        assert(w * abs(e2) <= unit);
        let off = abs(after.value() - (exact + last.value()) * g) as int;
        let (a, b) = (abs(e1) as int, abs(e2) as int);
        assert(w * off <= w * a + w * b) by (nonlinear_arith)
            requires
                off <= a + b,
                w > 0,
        ;
        let n = less as int;
        assert((n + 1) * unit == n * unit + unit) by (nonlinear_arith);
    }
}

/// The mean of a bucket is the sum of its samples over their count, to a two-millionth:
/// for samples in [-1, 1], and up to half a billion of them.
pub proof fn a_mean_is_the_sum_over_the_count(samples: Seq<Single>)
    requires
        all_normalized(samples),
        0 < samples.len() <= 0x2000_0000,
    ensures
        mean(samples).finite(),
        pow2(21) * abs(
            mean(samples).value() * samples.len() - exact_total(samples, samples.len()),
        ) <= samples.len() * pow2(149),
{
    let n = samples.len();
    lemma_bounds();
    lemma2_to64();
    lemma2_to64_rest();
    lemma_pow2_pos(1074);
    lemma_pow2_pos(925);
    lemma_pow2_pos(149);
    lemma_units_zero(52);
    lemma_total(samples, n);
    lemma_total_off(samples, n, n);
    mean_stays_in_range(samples);
    let sum = total(samples, n);
    let count = Double::whole_spec(n as u64);
    lemma_whole(n as u64);
    wholes_are_accurate(n as u64);
    let u = pow2(1074) as int;
    let g = pow2(925) as int;
    let q = sum.quotient_spec(count);
    assert(q.finite() && abs(q.value()) <= u) by {
        let t = units(52, sum.datum().mag as nat);
        let d = units(52, count.datum().mag as nat);
        lemma_ones();
        assert(d == n * pow2(1074));
        assert(t * pow2(1074) <= pow2(1074) * d) by (nonlinear_arith)
            requires
                t <= d,
        ;
        crate::ieee::bounds::lemma_rounded_between(
            crate::ieee::round::double_spec(),
            t * pow2(1074),
            d,
            0x3ff0_0000_0000_0000,
        );
        if q.datum().mag < 0x3ff0_0000_0000_0000 {
            lemma_units_increase(52, q.datum().mag as nat, 0x3ff0_0000_0000_0000);
        }
    }
    quotients_are_accurate(sum, count);
    narrowing_is_accurate(q);
    let m = mean(samples).value();
    let c = n as int;
    let x = exact_total(samples, n);
    let t = sum.value();
    lemma_pow2_adds(149, 925);
    lemma_mean_off(m, q.value(), t, x, c);
}

/// How the roundings of a mean add up.
proof fn lemma_mean_off(m: int, q: int, t: int, x: int, n: int)
    requires
        0 < n <= 0x2000_0000,
        abs(m) <= pow2(149),
        abs(q) <= pow2(1074),
        pow2(53) * abs(t - x * pow2(925)) <= n * (n * pow2(1074) + pow2(53)),
        is_rounded(q, t * pow2(1074), n * pow2(1074), 53),
        is_rounded(m, q, pow2(925) as int, 24),
    ensures
        pow2(21) * abs(m * n - x) <= n * pow2(149),
{
    let u = pow2(1074) as int;
    let g = pow2(925) as int;
    let h = pow2(149) as int;
    let w = pow2(53) as int;
    lemma2_to64();
    lemma2_to64_rest();
    lemma_pow2_pos(1074);
    lemma_pow2_pos(925);
    lemma_pow2_pos(149);
    lemma_pow2_adds(149, 925);
    lemma_pow2_adds(53, 872);
    lemma_pow2_pos(872);
    lemma_pow2_adds(24, 125);
    lemma_pow2_adds(24, 101);
    lemma_pow2_pos(101);
    // One is far above the least positive values.
    assert(w <= g) by (nonlinear_arith)
        requires
            g == w * pow2(872),
            pow2(872) >= 1,
            w > 0,
    ;
    let tiny: int = 0x100_0000;
    assert(tiny * tiny <= h) by (nonlinear_arith)
        requires
            h == tiny * pow2(125),
            pow2(125) == tiny * pow2(101),
            pow2(101) >= 1,
            tiny > 0,
    ;
    assert(u == h * g);
    assert(tiny * g <= u) by (nonlinear_arith)
        requires
            u == h * g,
            tiny * tiny <= h,
            tiny >= 1,
            g > 0,
    ;
    let e1 = t - x * g;
    let e2 = q * n - t;
    let e3 = m * g - q;
    assert(w * abs(e2) <= (u + w) * n) by {
        assert(q * (n * u) - t * u == e2 * u) by (nonlinear_arith)
            requires
                e2 == q * n - t,
        ;
        lemma_abs_product(e2, u);
        let (a, b) = (w * abs(e2), (abs(q) + w) * n);
        assert(a * u == w * (abs(e2) * u)) by (nonlinear_arith)
            requires
                a == w * abs(e2),
        ;
        assert(b * u == (abs(q) + w) * (n * u)) by (nonlinear_arith)
            requires
                b == (abs(q) + w) * n,
        ;
        lemma_mul_inequality_converse(a, b, u);
        assert(b <= (u + w) * n) by (nonlinear_arith)
            requires
                b == (abs(q) + w) * n,
                abs(q) <= u,
                n > 0,
        ;
    }
    assert(tiny * abs(e3) <= 2 * u) by {
        assert((abs(m) + tiny) * g <= u + tiny * g) by (nonlinear_arith)
            requires
                abs(m) <= h,
                u == h * g,
                g > 0,
        ;
    }
    let off = (m * n - x) * g;
    assert(off == e3 * n + e2 + e1) by {
        assert((m * n - x) * g == (m * g) * n - x * g) by (nonlinear_arith);
        assert((m * g - q) * n == (m * g) * n - q * n) by (nonlinear_arith);
    }
    lemma_abs_product(e3, n);
    lemma_abs_product(m * n - x, g);
    let (a, b, c) = (abs(e3) * n, abs(e2) as int, abs(e1) as int);
    assert(abs(off) <= a + b + c);
    let unit = n * u;
    // Each in parts of one.
    assert(tiny * a <= 2 * unit) by (nonlinear_arith)
        requires
            tiny * abs(e3) <= 2 * u,
            a == abs(e3) * n,
            unit == n * u,
            n > 0,
    ;
    let big: int = 0x2000_0000;
    assert(w == tiny * big);
    assert(tiny * b <= unit) by (nonlinear_arith)
        requires
            w * b <= (u + w) * n,
            w <= u,
            w == tiny * big,
            big >= 2,
            unit == n * u,
            tiny > 0,
            b >= 0,
            n > 0,
            u > 0,
    ;
    assert(tiny * c <= 2 * unit) by {
        assert(n * (n * u + w) <= (2 * big) * unit) by (nonlinear_arith)
            requires
                n <= big,
                w <= u,
                unit == n * u,
                n > 0,
                u > 0,
                big >= 1,
        ;
        assert((tiny * c) * big <= (2 * unit) * big) by (nonlinear_arith)
            requires
                w * c <= n * (n * u + w),
                n * (n * u + w) <= (2 * big) * unit,
                w == tiny * big,
        ;
        lemma_mul_inequality_converse(tiny * c, 2 * unit, big);
    }
    assert(tiny * abs(off) <= 5 * unit) by (nonlinear_arith)
        requires
            abs(off) <= a + b + c,
            tiny * a <= 2 * unit,
            tiny * b <= unit,
            tiny * c <= 2 * unit,
            tiny > 0,
    ;
    let s = abs(m * n - x) as int;
    assert((tiny * s) * g <= (5 * (n * h)) * g) by (nonlinear_arith)
        requires
            tiny * (s * g) <= 5 * (n * u),
            u == h * g,
    ;
    lemma_mul_inequality_converse(tiny * s, 5 * (n * h), g);
}

/// The envelope goes on from bucket to bucket: each adds its place, and the heights of its
/// highest and its lowest sample there.
pub proof fn the_envelope_shows_every_bucket(samples: Seq<Single>, index: nat)
    ensures
        envelope(samples, index + 1) == envelope(samples, index) + (if index == 0 {
            ""@
        } else {
            " "@
        }) + ("M"@ + fixed(bucket_x_spec(index, bucket_count(samples.len())), 3) + ","@ + fixed(
            sample_y_spec(
                highest(bucket(samples, index), bucket(samples, index).len()),
                amplitude_scale_spec(samples),
            ),
            3,
        ) + " V"@ + fixed(
            sample_y_spec(
                lowest(bucket(samples, index), bucket(samples, index).len()),
                amplitude_scale_spec(samples),
            ),
            3,
        )),
        means(samples, index + 1) == means(samples, index) + (if index == 0 {
            ""@
        } else {
            " "@
        }) + (fixed(bucket_x_spec(index, bucket_count(samples.len())), 3) + ","@ + fixed(
            sample_y_spec(mean(bucket(samples, index)), amplitude_scale_spec(samples)),
            3,
        )),
{
    reveal_strlit("");
    assert(envelope(samples, index) + ""@ =~= envelope(samples, index));
    assert(means(samples, index) + ""@ =~= means(samples, index));
}

/// Five pieces with six others around them.
pub open spec fn woven(around: Seq<Seq<char>>, pieces: Seq<Seq<char>>) -> Seq<char> {
    around[0] + pieces[0] + around[1] + pieces[1] + around[2] + pieces[2] + around[3] + pieces[3]
        + around[4] + pieces[4] + around[5]
}

/// What a drawing shows: the number of frames, the number of buckets, the scale, the
/// envelope of every bucket and the mean of every bucket.
pub open spec fn shown(samples: Seq<Single>, frame_count: u64) -> Seq<Seq<char>> {
    let count = bucket_count(samples.len());
    seq![
        decimal(frame_count as nat),
        decimal(count),
        fixed(amplitude_scale_spec(samples), 6),
        envelope(samples, count),
        means(samples, count),
    ]
}

/// A drawing shows the number of frames, the number of buckets, the scale, the envelope of
/// every bucket and the mean of every bucket, between words that do not depend on the
/// samples.
pub proof fn a_drawing_shows_every_bucket(
    one: Seq<Single>,
    other: Seq<Single>,
    frame_count: u64,
    other_count: u64,
)
    ensures
        exists|around: Seq<Seq<char>>|
            around.len() == 6 && waveform(one, frame_count) == #[trigger] woven(
                around,
                shown(one, frame_count),
            ) && waveform(other, other_count) == woven(around, shown(other, other_count)),
{
    let around = seq![
        "<?xml version=\"1.0\" encoding=\"UTF-8\"?>\n<svg xmlns=\"http://www.w3.org/2000/svg\" width=\"1200\" height=\"320\" viewBox=\"0 0 1200 320\">\n<rect width=\"1200\" height=\"320\" fill=\"#07111f\"/>\n<g id=\"waveform\" data-frame-count=\""@,
        "\" data-bucket-count=\""@,
        "\" data-amplitude-scale=\""@,
        "\">\n<line id=\"zero-baseline\" x1=\"16\" y1=\"160.000\" x2=\"1184\" y2=\"160.000\" stroke=\"#334155\" stroke-width=\"1\"/>\n<path id=\"waveform-envelope\" d=\""@,
        "\" fill=\"none\" stroke=\"#38bdf8\" stroke-width=\"1\" stroke-linecap=\"round\"/>\n<polyline id=\"waveform-mean\" points=\""@,
        "\" fill=\"none\" stroke=\"#e0f2fe\" stroke-width=\"1\" stroke-linejoin=\"round\"/>\n</g>\n</svg>\n"@,
    ];
    assert(waveform(one, frame_count) == woven(
        around,
        shown(one, frame_count),
    ));
    assert(waveform(other, other_count) == woven(
        around,
        shown(other, other_count),
    ));
}

} // verus!
