//! The waveforms, frame by frame.
use crate::config::pulse_width_valid;
use crate::ieee::bounds::{
    lemma_fraction_exact, lemma_power_magnitude, lemma_rounded_at_most, lemma_whole,
    power_magnitude,
};
use crate::ieee::closeness::agrees;
use crate::ieee::constants::lemma_ones;
use crate::ieee::convert::{fraction, narrowed};
use crate::ieee::datum::rounded;
use crate::ieee::format::{
    lemma_nearest, lemma_round_exact, lemma_units_increase, lemma_units_zero, units,
};
use crate::ieee::number::{lemma_bounds, Double, Single};
use crate::ieee::round::double_spec;
use crate::physical::frame::gain::lemma_narrowed;
use crate::physical::frame::node::normalized;
use crate::wave_laws::sine_phase_is_the_angle;
use vstd::arithmetic::power2::{
    lemma2_to64, lemma2_to64_rest, lemma_pow2_adds, lemma_pow2_pos, pow2,
};
use vstd::prelude::*;

verus! {

/// A full turn, in radians.
pub open spec fn full_turn() -> Double {
    Double { bits: 0x4019_21fb_5444_2d18 }
}

/// The angle of a sine wave at a frame, in radians, step by step as it is rounded.
pub open spec fn sine_phase(frame: u64, sample_rate_hz: u32, frequency_hz: Double) -> Double {
    full_turn().product_spec(Double::whole_spec(frame)).product_spec(frequency_hz).quotient_spec(
        Double::whole_spec(sample_rate_hz as u64),
    )
}

/// The angle of a sine wave at a frame, in radians: twice pi times the periods up to there.
/// The sample there is the sine of it.
pub fn sine_phase_at_frame(frame: u64, sample_rate_hz: u32, frequency_hz: Double) -> (phase: Double)
    ensures
        phase == sine_phase(frame, sample_rate_hz, frequency_hz),
        sample_rate_hz > 0 && frequency_hz.finite() && 0 <= frequency_hz.value() <= pow2(1106)
            ==> phase.finite() && agrees(
            phase.value(),
            6283185307179586 * (frame * frequency_hz.value()),
            1_000_000_000_000_000 * sample_rate_hz,
            47,
        ),
{
    proof {
        if sample_rate_hz > 0 && frequency_hz.finite() && 0 <= frequency_hz.value() <= pow2(1106) {
            sine_phase_is_the_angle(frame, sample_rate_hz, frequency_hz);
        }
    }
    let turn: Double = Double { bits: 0x4019_21fb_5444_2d18 };
    turn.times(Double::from_whole(frame)).times(frequency_hz).over(
        Double::from_whole(sample_rate_hz as u64),
    )
}

/// How far a square wave is in its period at a frame, as a fraction of the period.
pub open spec fn square_phase(frame: u64, sample_rate_hz: u32, frequency_hz: Double) -> Double {
    fraction(
        Double::whole_spec(frame).product_spec(frequency_hz).quotient_spec(
            Double::whole_spec(sample_rate_hz as u64),
        ),
    )
}

/// A pulse wave: one from the start of each period on, and minus one once the given
/// fraction of the period is over.
pub open spec fn square_sample(
    frame: u64,
    sample_rate_hz: u32,
    frequency_hz: Double,
    pulse_width: Double,
) -> Single {
    if square_phase(frame, sample_rate_hz, frequency_hz).below(pulse_width) {
        Single { bits: 0x3f80_0000 }
    } else {
        Single { bits: 0xbf80_0000 }
    }
}

/// The sample of a pulse wave at a frame.
pub fn square_at_frame(
    frame: u64,
    sample_rate_hz: u32,
    frequency_hz: Double,
    pulse_width: Double,
) -> (sample: Single)
    ensures
        sample == square_sample(frame, sample_rate_hz, frequency_hz, pulse_width),
{
    let phase: Double = Double::from_whole(frame).times(frequency_hz).over(
        Double::from_whole(sample_rate_hz as u64),
    ).fract();
    if phase.less_than(pulse_width) {
        Single { bits: 0x3f80_0000 }
    } else {
        Single { bits: 0xbf80_0000 }
    }
}

/// A product or a quotient with nothing in it is nothing.
proof fn lemma_rounds_nothing(den: nat)
    requires
        den > 0,
    ensures
        rounded(double_spec(), 0, den) == 0,
{
    lemma_units_zero(52);
    assert(units(52, 0) * den == 0) by (nonlinear_arith)
        requires
            units(52, 0) == 0,
    ;
    lemma_round_exact(52, double_spec().top_spec(), 0, 0, den);
    lemma_nearest(52, double_spec().top_spec(), 0, 0, den);
}

/// Only a zero magnitude is worth nothing.
proof fn lemma_no_units(x: Double)
    requires
        x.value() == 0,
    ensures
        x.datum().mag == 0,
{
    lemma_units_zero(52);
    if x.datum().mag > 0 {
        lemma_units_increase(52, 0, x.datum().mag as nat);
    }
}

/// A frequency of zero holds the start of the period for ever.
pub proof fn zero_frequency_holds_the_first_phase(
    frame: u64,
    sample_rate_hz: u32,
    frequency_hz: Double,
    pulse_width: Double,
)
    requires
        sample_rate_hz > 0,
        frequency_hz.value() == 0,
    ensures
        square_phase(frame, sample_rate_hz, frequency_hz).value() == 0,
        square_sample(frame, sample_rate_hz, frequency_hz, pulse_width) == square_sample(
            0,
            sample_rate_hz,
            frequency_hz,
            pulse_width,
        ),
        pulse_width_valid(pulse_width) && pulse_width.value() > 0 ==> square_sample(
            frame,
            sample_rate_hz,
            frequency_hz,
            pulse_width,
        ).bits == 0x3f80_0000,
{
    lemma_bounds();
    lemma_no_units(frequency_hz);
    lemma_units_zero(52);
    lemma_pow2_pos(1074);
    lemma_still(frame, sample_rate_hz, frequency_hz);
    lemma_still(0, sample_rate_hz, frequency_hz);
}

/// At a frequency of zero the phase is a positive zero.
proof fn lemma_still(frame: u64, sample_rate_hz: u32, frequency_hz: Double)
    requires
        sample_rate_hz > 0,
        frequency_hz.datum().mag == 0,
    ensures
        square_phase(frame, sample_rate_hz, frequency_hz) == (Double { bits: 0 }),
{
    let format = double_spec();
    let at = Double::whole_spec(frame);
    let rate = Double::whole_spec(sample_rate_hz as u64);
    lemma_bounds();
    lemma_whole(frame);
    lemma_whole(sample_rate_hz as u64);
    lemma_units_zero(52);
    lemma_pow2_pos(1074);
    lemma_rounds_nothing(pow2(1074));
    let n = units(52, at.datum().mag as nat);
    assert(n * units(52, 0) == 0) by (nonlinear_arith)
        requires
            units(52, 0) == 0,
    ;
    let turned = at.product_spec(frequency_hz);
    assert(turned.datum().mag == 0);
    let d = units(52, rate.datum().mag as nat);
    assert(d > 0);
    lemma_rounds_nothing(d);
    let u = pow2(1074);
    assert(units(52, 0) * u == 0) by (nonlinear_arith)
        requires
            units(52, 0) == 0,
    ;
    assert(rate.datum().mag != 0) by {
        if rate.datum().mag == 0 {
            assert(rate.value() == 0);
        }
    }
    let phase = turned.quotient_spec(rate);
    assert(phase.datum().mag == 0);
    vstd::arithmetic::div_mod::lemma_small_mod(0, u);
}

/// The phase of a valid oscillator is a fraction of a period: at least zero, below one.
pub proof fn square_phase_is_a_fraction(frame: u64, sample_rate_hz: u32, frequency_hz: Double)
    requires
        sample_rate_hz > 0,
        frequency_hz.finite(),
        0 <= frequency_hz.value(),
        2 * frequency_hz.value() < sample_rate_hz * pow2(1074),
    ensures
        square_phase(frame, sample_rate_hz, frequency_hz).finite(),
        0 <= square_phase(frame, sample_rate_hz, frequency_hz).value() < pow2(1074),
{
    if frequency_hz.value() == 0 {
        lemma_no_units(frequency_hz);
        lemma_still(frame, sample_rate_hz, frequency_hz);
        lemma_bounds();
        lemma_units_zero(52);
        lemma_pow2_pos(1074);
    } else {
        lemma_square_phase(frame, sample_rate_hz, frequency_hz);
    }
}

/// The phase of a moving oscillator.
proof fn lemma_square_phase(frame: u64, sample_rate_hz: u32, frequency_hz: Double)
    requires
        sample_rate_hz > 0,
        frequency_hz.finite(),
        0 < frequency_hz.value(),
        2 * frequency_hz.value() < sample_rate_hz * pow2(1074),
    ensures
        square_phase(frame, sample_rate_hz, frequency_hz).finite(),
        0 <= square_phase(frame, sample_rate_hz, frequency_hz).value() < pow2(1074),
{
    let at = Double::whole_spec(frame);
    let rate = Double::whole_spec(sample_rate_hz as u64);
    lemma_bounds();
    lemma2_to64();
    lemma2_to64_rest();
    lemma_whole(frame);
    lemma_whole(sample_rate_hz as u64);
    lemma_units_zero(52);
    lemma_pow2_pos(1074);
    let u = pow2(1074);
    // The frequency is positive and below 2^32.
    let f = units(52, frequency_hz.datum().mag as nat);
    lemma_pow2_adds(32, 1074);
    assert(f <= pow2(1106)) by (nonlinear_arith)
        requires
            2 * f < sample_rate_hz * u,
            sample_rate_hz <= 0xffff_ffff,
            pow2(1106) == 0x1_0000_0000 * u,
    ;
    let n = units(52, at.datum().mag as nat);
    lemma_pow2_adds(1138, 1106);
    lemma_pow2_adds(1170, 1074);
    assert(n * f <= pow2(1138) * pow2(1106)) by (nonlinear_arith)
        requires
            n <= pow2(1138),
            f <= pow2(1106),
    ;
    lemma_rounded_at_most(n * f, u, 1170);
    let turned = at.product_spec(frequency_hz);
    let t = units(52, turned.datum().mag as nat);
    assert(t <= pow2(1170));
    let d = units(52, rate.datum().mag as nat);
    assert(d >= u);
    assert(t * u <= pow2(1170) * d) by (nonlinear_arith)
        requires
            t <= pow2(1170),
            u <= d,
    ;
    assert(rate.datum().mag != 0) by {
        if rate.datum().mag == 0 {
            assert(rate.value() == 0);
        }
    }
    lemma_rounded_at_most(t * u, d, 1170);
    let phase = turned.quotient_spec(rate);
    assert(phase.finite());
    assert(!phase.datum().negative);
    lemma_fraction(phase);
}

/// The fraction of a number that is not negative.
proof fn lemma_fraction(x: Double)
    requires
        x.finite(),
        !x.datum().negative,
    ensures
        fraction(x).finite(),
        0 <= fraction(x).value() < pow2(1074),
{
    let u = pow2(1074);
    lemma_bounds();
    lemma_pow2_pos(1074);
    lemma_units_zero(52);
    let whole = units(52, x.datum().mag as nat);
    let rest = whole % u;
    vstd::arithmetic::div_mod::lemma_mod_bound(whole as int, u as int);
    if rest != 0 {
        lemma_fraction_exact(x.datum().mag as nat);
    }
}

/// No pulse is as wide as nothing, and every one fits in the whole period.
pub proof fn pulse_width_limits(frame: u64, sample_rate_hz: u32, frequency_hz: Double)
    requires
        sample_rate_hz > 0,
        frequency_hz.finite(),
        0 <= frequency_hz.value(),
        2 * frequency_hz.value() < sample_rate_hz * pow2(1074),
    ensures
        square_sample(frame, sample_rate_hz, frequency_hz, Double { bits: 0 }).bits == 0xbf80_0000,
        square_sample(
            frame,
            sample_rate_hz,
            frequency_hz,
            Double { bits: 0x3ff0_0000_0000_0000 },
        ).bits == 0x3f80_0000,
{
    square_phase_is_a_fraction(frame, sample_rate_hz, frequency_hz);
    lemma_bounds();
    lemma_ones();
    lemma_units_zero(52);
}

/// A frequency of zero turns nowhere: the angle stays zero.
pub proof fn zero_frequency_stays_at_the_first_angle(
    frame: u64,
    sample_rate_hz: u32,
    frequency_hz: Double,
)
    requires
        sample_rate_hz > 0,
        frequency_hz.value() == 0,
    ensures
        sine_phase(frame, sample_rate_hz, frequency_hz).finite(),
        sine_phase(frame, sample_rate_hz, frequency_hz).value() == 0,
{
    let at = Double::whole_spec(frame);
    let rate = Double::whole_spec(sample_rate_hz as u64);
    let turn = full_turn();
    let u = pow2(1074);
    lemma_bounds();
    lemma_no_units(frequency_hz);
    lemma_whole(frame);
    lemma_whole(sample_rate_hz as u64);
    lemma_units_zero(52);
    lemma_pow2_pos(1074);
    lemma_rounds_nothing(u);
    // A full turn is below eight.
    let t = units(52, turn.datum().mag as nat);
    assert(t <= pow2(1077)) by {
        lemma_power_magnitude(1077);
        lemma2_to64();
        lemma2_to64_rest();
        lemma_units_increase(52, turn.datum().mag as nat, power_magnitude(1077));
    }
    let n = units(52, at.datum().mag as nat);
    lemma_pow2_adds(1077, 1138);
    lemma_pow2_adds(1141, 1074);
    assert(t * n <= pow2(1077) * pow2(1138)) by (nonlinear_arith)
        requires
            t <= pow2(1077),
            n <= pow2(1138),
    ;
    lemma_rounded_at_most(t * n, u, 1141);
    let turned = turn.product_spec(at);
    assert(turned.finite());
    let m = units(52, turned.datum().mag as nat);
    assert(m * units(52, 0) == 0) by (nonlinear_arith)
        requires
            units(52, 0) == 0,
    ;
    let still = turned.product_spec(frequency_hz);
    assert(still.datum().mag == 0);
    let d = units(52, rate.datum().mag as nat);
    assert(rate.datum().mag != 0) by {
        if rate.datum().mag == 0 {
            assert(rate.value() == 0);
        }
    }
    lemma_rounds_nothing(d);
    assert(units(52, 0) * u == 0) by (nonlinear_arith)
        requires
            units(52, 0) == 0,
    ;
    assert(still.quotient_spec(rate).datum().mag == 0);
}

/// The samples of both waves lie in [-1, 1]: a square wave's always, and a sine wave's
/// where the sine does.
pub proof fn waves_are_normalized(
    frame: u64,
    sample_rate_hz: u32,
    frequency_hz: Double,
    pulse_width: Double,
    sine: Double,
)
    requires
        sine.finite(),
        -(pow2(1074) as int) <= sine.value() <= pow2(1074),
    ensures
        normalized(square_sample(frame, sample_rate_hz, frequency_hz, pulse_width)),
        normalized(narrowed(sine)),
{
    lemma_bounds();
    lemma_ones();
    lemma_narrowed(sine);
}

} // verus!
