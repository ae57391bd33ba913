//! What each node does to a signal.
use crate::arrow::present;
use crate::dsp::square_sample;
use crate::ieee::accuracy::{
    is_rounded, narrowing_is_accurate, products_are_accurate, sums_are_accurate,
};
use crate::ieee::bounds::{
    lemma_rounded_at_most, lemma_rounded_exact, lemma_rounded_ratio, lemma_rounded_same,
    lemma_widened,
};
use crate::ieee::closeness::{agrees, lemma_abs_product};
use crate::ieee::constants::lemma_ones;
use crate::ieee::convert::{narrowed, widened};
use crate::ieee::decimal_laws::a_decimal_says_its_number;
use crate::ieee::format::{
    lemma_decompose, lemma_units_zero, significand_of, step_of, units,
};
use crate::ieee::number::{lemma_bounds, Double, Single};
use crate::ieee::round::{double_spec, single_spec};
use crate::layout::frame_metadata;
use crate::physical::frame::gain::{amplified, gain_saturates, saturated};
use crate::physical::frame::gap_laws::{is_factor, is_within, lemma_times_factor};
use crate::physical::frame::low_pass_filter::{
    elapsed_of, filter_fault, filtered_samples, filtered_state, Filtering,
};
use crate::physical::frame::node::{cell_values, frame_model, frame_run, normalized};
use crate::physical::frame::sine::Oscillation;
use crate::physical::frame::square::{square_samples, Square};
use crate::text::decimal;
use crate::wave_laws::square_wave_is_up_for_its_pulse_width;
use vstd::arithmetic::power2::{
    lemma2_to64, lemma2_to64_rest, lemma_pow2_adds, lemma_pow2_pos, lemma_pow2_strictly_increases,
    lemma_pow2_unfold, pow2,
};
use vstd::math::abs;
use vstd::prelude::*;

verus! {

/// The frames of a batch follow each other without a gap, from the first on.
pub proof fn frames_of_a_batch_follow_each_other(from: u64, to: u64, index: int)
    requires
        from <= to,
        0 <= index < to - from,
    ensures
        frame_run(from, to).len() == to - from,
        frame_run(from, to)[index] == from + index,
{
}

/// Every row of a square wave's batch is up for the pulse width of its own frame, wherever
/// in the batch it stands.
pub proof fn every_row_of_a_square_wave_is_at_its_frame(
    run: Oscillation<Square>,
    end: u64,
    index: int,
)
    requires
        run.next_frame <= end,
        0 <= index < end - run.next_frame,
        run.node.sample_rate_hz > 0,
        run.node.frequency_hz.finite(),
        0 <= run.node.frequency_hz.value() <= pow2(1106),
        run.node.pulse_width.finite(),
    ensures
        square_samples(run, end).len() == end - run.next_frame,
        exists|periods: int| #[trigger]
            agrees(
                periods,
                (run.next_frame + index) * run.node.frequency_hz.value(),
                run.node.sample_rate_hz as int,
                49,
            ) && periods >= 0 && square_samples(run, end)[index].bits == if periods % (pow2(
                1074,
            ) as int) < run.node.pulse_width.value() {
                0x3f80_0000u32
            } else {
                0xbf80_0000u32
            },
{
    let frame = (run.next_frame + index) as u64;
    square_wave_is_up_for_its_pulse_width(
        frame,
        run.node.sample_rate_hz,
        run.node.frequency_hz,
        run.node.pulse_width,
    );
    let periods = choose|periods: int| #[trigger]
        agrees(
            periods,
            frame * run.node.frequency_hz.value(),
            run.node.sample_rate_hz as int,
            49,
        ) && periods >= 0 && square_sample(
            frame,
            run.node.sample_rate_hz,
            run.node.frequency_hz,
            run.node.pulse_width,
        ).bits == if periods % (pow2(1074) as int) < run.node.pulse_width.value() {
            0x3f80_0000u32
        } else {
            0xbf80_0000u32
        };
    assert(square_samples(run, end)[index] == square_sample(
        frame,
        run.node.sample_rate_hz,
        run.node.frequency_hz,
        run.node.pulse_width,
    ));
}

/// The product of two numbers of single precision is exact in double precision.
proof fn lemma_exact_product(a: Single, b: Single)
    requires
        a.finite(),
        b.finite(),
    ensures
        widened(a).product_spec(widened(b)).finite(),
        widened(a).product_spec(widened(b)).value() == (a.value() * b.value()) * pow2(776),
{
    let x = widened(a);
    let y = widened(b);
    lemma_bounds();
    lemma2_to64();
    lemma2_to64_rest();
    lemma_widened(a);
    lemma_widened(b);
    let ma = a.datum().mag as nat;
    let mb = b.datum().mag as nat;
    lemma_decompose(23, ma);
    lemma_decompose(23, mb);
    let (sa, sb) = (significand_of(23, ma), significand_of(23, mb));
    let (ta, tb) = (step_of(23, ma), step_of(23, mb));
    assert(ta <= 254) by (nonlinear_arith)
        requires
            ma == ta * pow2(23) + sa,
            ma < 0x7f80_0000,
            pow2(23) == 0x80_0000,
    ;
    assert(tb <= 254) by (nonlinear_arith)
        requires
            mb == tb * pow2(23) + sb,
            mb < 0x7f80_0000,
            pow2(23) == 0x80_0000,
    ;
    let (ua, ub) = (units(23, ma), units(23, mb));
    let (pa, pb) = (pow2(ta), pow2(tb));
    let sig = sa * sb;
    assert(sig < 0x1_0000_0000_0000) by (nonlinear_arith)
        requires
            sig == sa * sb,
            sa < 0x100_0000,
            sb < 0x100_0000,
    ;
    lemma_pow2_adds(ta, tb);
    lemma_pow2_adds(ta + tb, 776);
    let k = pow2(776);
    assert(ua * ub == sig * (pa * pb)) by (nonlinear_arith)
        requires
            ua == sa * pa,
            ub == sb * pb,
            sig == sa * sb,
    ;
    assert((sig * (pa * pb)) * k == sig * ((pa * pb) * k)) by (nonlinear_arith);
    lemma_rounded_exact(sig, ta + tb + 776);
    let g = pow2(925);
    let u = pow2(1074);
    lemma_pow2_pos(1074);
    lemma_pow2_adds(925, 925);
    lemma_pow2_adds(776, 1074);
    let num = units(52, x.datum().mag as nat) * units(52, y.datum().mag as nat);
    assert((ua * g) * (ub * g) == (ua * ub) * (g * g)) by (nonlinear_arith);
    assert((ua * ub) * (k * u) == ((ua * ub) * k) * u) by (nonlinear_arith);
    assert(units(52, x.datum().mag as nat) == ua * g) by {
        let v = ua as int;
        assert((-v) * g == -(v * g)) by (nonlinear_arith);
    }
    assert(units(52, y.datum().mag as nat) == ub * g) by {
        let v = ub as int;
        assert((-v) * g == -(v * g)) by (nonlinear_arith);
    }
    assert(num == ((ua * ub) * k) * u);
    lemma_rounded_ratio(double_spec(), (ua * ub) * k, 1, u);
    assert(1 * u == u);
    let p = x.product_spec(y);
    assert(units(52, p.datum().mag as nat) == (ua * ub) * k);
    let (m, n) = (ua as int, ub as int);
    assert((-m) * n == -(m * n)) by (nonlinear_arith);
    assert(m * (-n) == -(m * n)) by (nonlinear_arith);
    assert((-m) * (-n) == m * n) by (nonlinear_arith);
    let t = m * n;
    assert((-t) * k == -(t * k)) by (nonlinear_arith);
}

/// Whether a number is the exact product of a sample and a gain, rounded once, as long as
/// that lies in [-1, 1], and the nearer end of it where it does not.
pub open spec fn is_product(sample: Single, gain: Single, output: Single) -> bool {
    let one = pow2(149) as int;
    let exact = sample.value() * gain.value();
    &&& output.finite()
    &&& exact > one * one ==> output.value() == one
    &&& exact < -(one * one) ==> output.value() == -one
    &&& -(one * one) <= exact <= one * one ==> is_rounded(output.value(), exact, one, 24)
}

/// A gain multiplies: the output is the exact product, rounded once, as long as that lies
/// in [-1, 1], and the nearer end of it where it does not.
pub proof fn a_gain_multiplies(sample: Single, gain: Single)
    requires
        sample.finite(),
        gain.finite(),
    ensures
        is_product(sample, gain, amplified(sample, gain)),
{
    let one = pow2(149) as int;
    let u = pow2(1074) as int;
    let k = pow2(776) as int;
    let exact = sample.value() * gain.value();
    let product = widened(sample).product_spec(widened(gain));
    let low = Double { bits: 0xbff0_0000_0000_0000 };
    let high = Double { bits: 0x3ff0_0000_0000_0000 };
    lemma_bounds();
    lemma_ones();
    lemma_pow2_pos(776);
    lemma_pow2_pos(149);
    lemma_pow2_pos(925);
    lemma_pow2_adds(149, 149);
    lemma_pow2_adds(298, 776);
    lemma_pow2_adds(149, 776);
    lemma_exact_product(sample, gain);
    gain_saturates(sample, gain);
    let kept = saturated(product);
    assert(low.value() == -u && high.value() == u);
    assert((exact * k > (one * one) * k) == (exact > one * one)) by (nonlinear_arith)
        requires
            k > 0,
    ;
    let small = -(one * one);
    assert((exact * k < small * k) == (exact < small)) by (nonlinear_arith)
        requires
            k > 0,
    ;
    assert(small * k == -((one * one) * k)) by (nonlinear_arith)
        requires
            small == -(one * one),
    ;
    assert(u == (one * one) * k);
    if exact > one * one || exact < small {
        // One is one in either precision.
        assert(kept == high || kept == low);
        let g = pow2(925);
        lemma_pow2_adds(149, 925);
        lemma_rounded_same(single_spec(), 0x3f80_0000, pow2(1074), g);
    } else {
        assert(kept == product);
        narrowing_is_accurate(product);
        let out = narrowed(product).value();
        let g = pow2(925) as int;
        let w = pow2(24) as int;
        assert(g == one * k);
        assert(out * (one * k) - exact * k == (out * one - exact) * k) by (nonlinear_arith);
        lemma_abs_product(out * one - exact, k);
        let e = abs(out * one - exact) as int;
        let a = abs(out) as int;
        assert((w * e) * k == w * (e * k)) by (nonlinear_arith);
        assert(((a + w) * one) * k == (a + w) * (one * k)) by (nonlinear_arith);
        vstd::arithmetic::mul::lemma_mul_inequality_converse(w * e, (a + w) * one, k);
    }
}

/// How many frames went by before a row: the difference to the row before, or to the last
/// frame of the batch before, and one for the first row of all.
pub proof fn elapsed_frames_are_counted(start: Option<u64>, frames: Seq<u64>, index: int)
    requires
        0 <= index < frames.len(),
        index > 0 ==> frames[index - 1] <= frames[index],
        start matches Some(last) ==> last <= frames[0],
    ensures
        elapsed_of(start, frames).len() == frames.len(),
        index > 0 ==> elapsed_of(start, frames)[index] == frames[index] - frames[index - 1],
        index == 0 && start.is_some() ==> elapsed_of(start, frames)[0] == frames[0]
            - start.unwrap(),
        index == 0 && start.is_none() ==> elapsed_of(start, frames)[0] == 1,
{
}

/// A filter keeps its part of the state, the decay for one frame or the power handed in
/// for several, and takes in its part of the sample: the next state is the exact sum of
/// the two, but for three roundings, and what is handed out is that state, rounded once.
pub proof fn a_filter_keeps_a_part_and_takes_in_a_part(
    run: Filtering,
    samples: Seq<Single>,
    elapsed: Seq<u64>,
    powers: Seq<Double>,
    row: int,
    limit: nat,
)
    requires
        samples.len() == elapsed.len() == powers.len(),
        0 <= row < samples.len(),
        samples[row].finite(),
        run.alpha.finite(),
        ({
            let kept = if elapsed[row] == 1 {
                run.decay
            } else {
                powers[row]
            };
            let before = filtered_state(run, samples, elapsed, powers, row as nat);
            let after = filtered_state(run, samples, elapsed, powers, (row + 1) as nat);
            &&& kept.finite()
            &&& before.finite()
            &&& is_within(kept.product_spec(before), limit)
            &&& is_within(run.alpha.product_spec(widened(samples[row])), limit)
            &&& is_within(after, limit)
        }),
    ensures
        ({
            let kept = if elapsed[row] == 1 {
                run.decay
            } else {
                powers[row]
            };
            let before = filtered_state(run, samples, elapsed, powers, row as nat);
            let after = filtered_state(run, samples, elapsed, powers, (row + 1) as nat);
            let taken = run.alpha.value() * (samples[row].value() * pow2(925));
            let output = filtered_samples(run, samples, elapsed, powers)[row];
            &&& pow2(53) * abs(after.value() * pow2(1074) - (kept.value() * before.value() + taken))
                <= 3 * ((limit + pow2(53)) * pow2(1074))
            &&& output.finite() ==> is_rounded(output.value(), after.value(), pow2(925) as int, 24)
            &&& filtered_samples(run, samples, elapsed, powers).len() == samples.len()
        }),
{
    let kept = if elapsed[row] == 1 {
        run.decay
    } else {
        powers[row]
    };
    let before = filtered_state(run, samples, elapsed, powers, row as nat);
    let after = filtered_state(run, samples, elapsed, powers, (row + 1) as nat);
    let input = widened(samples[row]);
    let left = kept.product_spec(before);
    let taken = run.alpha.product_spec(input);
    lemma_pow2_pos(1074);
    lemma_pow2_pos(53);
    lemma_widened(samples[row]);
    products_are_accurate(kept, before);
    products_are_accurate(run.alpha, input);
    sums_are_accurate(left, taken);
    let u = pow2(1074) as int;
    let w = pow2(53) as int;
    let unit = (limit + w) * u;
    let (l, t, s) = (left.value(), taken.value(), after.value());
    let (x, y) = (kept.value() * before.value(), run.alpha.value() * input.value());
    let e1 = l * u - x;
    let e2 = t * u - y;
    let e3 = s - (l + t);
    assert(s * 1 == s);
    assert(s * u - (x + y) == e3 * u + e1 + e2) by {
        assert((s - (l + t)) * u == s * u - l * u - t * u) by (nonlinear_arith);
    }
    lemma_abs_product(e3, u);
    assert(w * abs(e1) <= unit) by (nonlinear_arith)
        requires
            w * abs(e1) <= (abs(l) + w) * u,
            abs(l) <= limit,
            unit == (limit + w) * u,
            u > 0,
    ;
    assert(w * abs(e2) <= unit) by (nonlinear_arith)
        requires
            w * abs(e2) <= (abs(t) + w) * u,
            abs(t) <= limit,
            unit == (limit + w) * u,
            u > 0,
    ;
    assert(w * (abs(e3) * u) <= unit) by (nonlinear_arith)
        requires
            w * abs(e3) <= (abs(s) + w) * 1,
            abs(s) <= limit,
            unit == (limit + w) * u,
            u > 0,
    ;
    let off = abs(s * u - (x + y)) as int;
    let (a, b, c) = (abs(e1) as int, abs(e2) as int, abs(e3) * u);
    assert(off <= a + b + c);
    assert(w * off <= w * a + w * b + w * c) by (nonlinear_arith)
        requires
            off <= a + b + c,
            w > 0,
    ;
    let output = filtered_samples(run, samples, elapsed, powers)[row];
    assert(output == narrowed(after));
    if output.finite() {
        narrowing_is_accurate(after);
    }
}

/// Cells hold values as they are, in their order, and give them back.
pub proof fn cells_hold_their_values(values: Seq<Single>, cells: Seq<Option<Single>>, index: int)
    requires
        0 <= index < values.len(),
        0 <= index < cells.len(),
        cells[index].is_some(),
    ensures
        present(values).len() == values.len(),
        present(values)[index] == Some(values[index]),
        cell_values(cells).len() == cells.len(),
        Some(cell_values(cells)[index]) == cells[index],
{
}

/// A filter takes a row where it has a frame, above the last one, and a finite sample.
pub proof fn a_filter_takes_rows_in_order(
    last: Option<u64>,
    frame: Option<u64>,
    sample: Option<Single>,
)
    ensures
        filter_fault(last, frame, sample).is_none() <==> {
            &&& frame.is_some()
            &&& sample.is_some()
            &&& sample.unwrap().finite()
            &&& last matches Some(last) ==> last < frame.unwrap()
        },
{
}

/// Signals at different sample rates are told apart by their schemas.
pub proof fn sample_rates_are_told_apart(one_hz: u32, other_hz: u32)
    ensures
        frame_model(one_hz) == frame_model(other_hz) <==> one_hz == other_hz,
        frame_metadata(one_hz)["audio.sample_rate_hz"@] == decimal(one_hz as nat),
{
    reveal_strlit("audio.sample_rate_hz");
    reveal_strlit("audio.channels");
    reveal_strlit("audio.layout");
    assert("audio.sample_rate_hz"@.len() == 20);
    assert("audio.channels"@.len() == 14);
    assert("audio.layout"@.len() == 12);
    a_decimal_says_its_number(one_hz as nat);
    a_decimal_says_its_number(other_hz as nat);
    assert(frame_metadata(one_hz)["audio.sample_rate_hz"@] == decimal(one_hz as nat));
    assert(frame_metadata(other_hz)["audio.sample_rate_hz"@] == decimal(other_hz as nat));
    if frame_model(one_hz) == frame_model(other_hz) {
        assert(decimal(one_hz as nat) == decimal(other_hz as nat));
    }
}

/// A filter whose parts lie in [0, 1] stays finite: from any state up to `2^126`, with any
/// sample in [-1, 1], the next state is finite too, and so are both of its parts.
pub proof fn a_filter_stays_finite(
    run: Filtering,
    samples: Seq<Single>,
    elapsed: Seq<u64>,
    powers: Seq<Double>,
    row: int,
)
    requires
        samples.len() == elapsed.len() == powers.len(),
        0 <= row < samples.len(),
        normalized(samples[row]),
        is_factor(run.alpha),
        is_factor(run.decay),
        is_factor(powers[row]),
        is_within(filtered_state(run, samples, elapsed, powers, row as nat), pow2(1200)),
    ensures
        is_within(filtered_state(run, samples, elapsed, powers, (row + 1) as nat), pow2(1201)),
        is_within(run.alpha.product_spec(widened(samples[row])), pow2(1074)),
        ({
            let kept = if elapsed[row] == 1 {
                run.decay
            } else {
                powers[row]
            };
            is_within(
                kept.product_spec(filtered_state(run, samples, elapsed, powers, row as nat)),
                pow2(1200),
            )
        }),
{
    let kept = if elapsed[row] == 1 {
        run.decay
    } else {
        powers[row]
    };
    let before = filtered_state(run, samples, elapsed, powers, row as nat);
    let after = filtered_state(run, samples, elapsed, powers, (row + 1) as nat);
    let input = widened(samples[row]);
    let left = kept.product_spec(before);
    let taken = run.alpha.product_spec(input);
    lemma_bounds();
    lemma_units_zero(52);
    lemma_widened(samples[row]);
    lemma_pow2_adds(149, 925);
    let (x, g, h) = (samples[row].value(), pow2(925) as int, pow2(149) as int);
    assert(-(h * g) <= x * g <= h * g) by (nonlinear_arith)
        requires
            -h <= x <= h,
            g >= 0,
    ;
    lemma_times_factor(kept, before);
    lemma_times_factor(run.alpha, input);
    lemma_pow2_strictly_increases(1074, 1200);
    lemma_pow2_unfold(1201);
    let exact = left.value() + taken.value();
    assert(after == left.sum_spec(taken));
    assert(pow2(1201) * 1 == pow2(1201));
    lemma_rounded_at_most(abs(exact), 1, 1201);
}

} // verus!
