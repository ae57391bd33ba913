//! Which configurations are accepted, and what they hold.
use crate::config::{RenderConfigBuilder, Settings};
use crate::ieee::constants::lemma_ones;
use crate::ieee::format::lemma_compose;
use crate::ieee::number::lemma_bounds;
use vstd::arithmetic::power2::{lemma2_to64, lemma2_to64_rest, lemma_pow2_adds, pow2};
use vstd::prelude::*;

verus! {

/// What a builder was given is kept as it is, field by field.
pub proof fn what_is_given_is_kept(builder: RenderConfigBuilder)
    ensures
        builder.sample_rate_hz matches Some(given) ==> builder.settings().sample_rate_hz == given,
        builder.frame_count matches Some(given) ==> builder.settings().frame_count == given,
        builder.batch_frame_capacity matches Some(given)
            ==> builder.settings().batch_frame_capacity == given,
        builder.frequency_hz matches Some(given) ==> builder.settings().frequency_hz == given,
        builder.pulse_width matches Some(given) ==> builder.settings().pulse_width == given,
        builder.gain matches Some(given) ==> builder.settings().gain == given,
        builder.max_render_seconds matches Some(given) ==> builder.settings().max_render_seconds
            == given,
{
}

/// What a builder was not given is the default: one second at 48000 frames a second, in
/// batches of 1024, 440 Hz, half a period up, half as loud, and at most a minute.
pub proof fn what_is_not_given_is_the_default(builder: RenderConfigBuilder)
    ensures
        builder.sample_rate_hz.is_none() ==> builder.settings().sample_rate_hz == 48_000,
        builder.frame_count.is_none() ==> builder.settings().frame_count == 48_000,
        builder.batch_frame_capacity.is_none() ==> builder.settings().batch_frame_capacity == 1024,
        builder.frequency_hz.is_none() ==> builder.settings().frequency_hz.value() == 440 * pow2(
            1074,
        ),
        builder.pulse_width.is_none() ==> 2 * builder.settings().pulse_width.value() == pow2(1074),
        builder.gain.is_none() ==> 2 * builder.settings().gain.value() == pow2(149),
        builder.max_render_seconds.is_none() ==> builder.settings().max_render_seconds == 60,
{
    lemma_bounds();
    lemma_ones();
    lemma2_to64();
    lemma2_to64_rest();
    let p = pow2(52);
    // 440 is 1.71875 times 2^8.
    lemma_compose(52, 1030, 0x1b_8000_0000_0000);
    lemma_pow2_adds(44, 1030);
    assert(1030 * p + 0x1b_8000_0000_0000 == 0x407b_8000_0000_0000);
    let h = pow2(1030);
    assert(0x1b_8000_0000_0000 * h == 440 * (0x1000_0000_0000 * h)) by (nonlinear_arith);
    lemma_compose(52, 1021, p);
    lemma_pow2_adds(52, 1021);
    lemma_pow2_adds(53, 1021);
    assert(1021 * p + p == 0x3fe0_0000_0000_0000);
    let q = pow2(23);
    lemma_compose(23, 125, q);
    lemma_pow2_adds(23, 125);
    lemma_pow2_adds(24, 125);
    assert(125 * q + q == 0x3f00_0000);
}

/// A configuration is accepted where every count is positive, a given frequency is not
/// negative and below half the sample rate, the pulse width lies in [0, 1], the gain is
/// finite, and the frames fit in the longest render, which is counted in frames.
pub proof fn sound_settings_are_accepted(settings: Settings, frequency_given: bool)
    ensures
        settings.fault(frequency_given).is_none() <==> {
            &&& settings.sample_rate_hz > 0
            &&& settings.frame_count > 0
            &&& settings.batch_frame_capacity > 0
            &&& frequency_given ==> settings.frequency_hz.finite() && 0
                <= settings.frequency_hz.value() && 2 * settings.frequency_hz.value()
                < settings.sample_rate_hz * pow2(1074)
            &&& settings.pulse_width.finite() && 0 <= settings.pulse_width.value() <= pow2(1074)
            &&& settings.gain.finite()
            &&& settings.max_render_seconds > 0
            &&& settings.sample_rate_hz * settings.max_render_seconds <= u64::MAX
            &&& settings.frame_count <= settings.sample_rate_hz * settings.max_render_seconds
        },
{
}

} // verus!
