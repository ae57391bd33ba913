//! What to render: rate, length, batching and the default node parameters.
use crate::error::{Error, Result};
use crate::ieee::constants::{nyquist, one, zero};
use crate::ieee::format::lemma_compose;
use crate::ieee::number::{lemma_bounds, Double, Single};
use crate::text::{decimal, decimal_text};
use vstd::arithmetic::power2::{
    lemma2_to64, lemma2_to64_rest, lemma_pow2_adds, lemma_pow2_pos, lemma_pow2_unfold, pow2,
};
use vstd::prelude::*;

verus! {

/// The values of a configuration.
#[derive(Clone, Copy, Debug, PartialEq, Eq, Structural)]
pub struct Settings {
    /// Frames per second.
    pub sample_rate_hz: u32,
    /// How many frames a render has.
    pub frame_count: u64,
    /// How many frames a batch holds at most.
    pub batch_frame_capacity: usize,
    /// The frequency of oscillators that have none of their own.
    pub frequency_hz: Double,
    /// The fraction of a square-wave period spent at one.
    pub pulse_width: Double,
    /// The gain factor.
    pub gain: Single,
    /// The longest render that is allowed.
    pub max_render_seconds: u64,
}

/// Half of a sample rate, in decimal.
pub open spec fn nyquist_text(sample_rate_hz: u32) -> Seq<char> {
    if sample_rate_hz % 2 == 0 {
        decimal((sample_rate_hz / 2) as nat)
    } else {
        decimal((sample_rate_hz / 2) as nat) + ".5"@
    }
}

/// What is wrong with a frequency, called `name`, at a sample rate: a frequency is finite,
/// not negative, and below half of the rate.
pub open spec fn frequency_fault(
    frequency_hz: Double,
    sample_rate_hz: u32,
    name: Seq<char>,
) -> Option<Seq<char>> {
    if !frequency_hz.finite() {
        Some(name + " must be finite"@)
    } else if frequency_hz.value() < 0 {
        Some(name + " must be greater than or equal to 0"@)
    } else if 2 * frequency_hz.value() >= sample_rate_hz * pow2(1074) {
        Some(
            name + " must be below Nyquist ("@ + nyquist_text(sample_rate_hz)
                + " Hz for sample_rate_hz "@ + decimal(sample_rate_hz as nat) + ")"@,
        )
    } else {
        None
    }
}

/// Whether a pulse width lies between zero and one.
pub open spec fn pulse_width_valid(pulse_width: Double) -> bool {
    pulse_width.finite() && 0 <= pulse_width.value() <= pow2(1074)
}

impl Settings {
    /// The most frames that the longest allowed render has.
    pub open spec fn max_frame_count(self) -> nat {
        self.sample_rate_hz as nat * self.max_render_seconds as nat
    }

    /// The first rule that the values break, in words. The frequency is held to its rule
    /// only where `frequency_given` says that somebody asked for it: a render whose
    /// sources have frequencies of their own does not use this one.
    pub open spec fn fault(self, frequency_given: bool) -> Option<Seq<char>> {
        if self.sample_rate_hz == 0 {
            Some("sample_rate_hz must be greater than 0"@)
        } else if self.frame_count == 0 {
            Some("frame_count must be greater than 0"@)
        } else if self.batch_frame_capacity == 0 {
            Some("batch_frame_capacity must be greater than 0"@)
        } else if frequency_given && frequency_fault(
            self.frequency_hz,
            self.sample_rate_hz,
            "frequency_hz"@,
        ).is_some() {
            frequency_fault(self.frequency_hz, self.sample_rate_hz, "frequency_hz"@)
        } else if !pulse_width_valid(self.pulse_width) {
            Some("pulse_width must be finite and between 0 and 1 inclusive"@)
        } else if !self.gain.finite() {
            Some("gain must be finite"@)
        } else if self.max_render_seconds == 0 {
            Some("max_render_seconds must be greater than 0"@)
        } else if self.max_frame_count() > u64::MAX {
            Some("sample_rate_hz × max_render_seconds overflows frame_count"@)
        } else if self.frame_count > self.max_frame_count() {
            Some(
                "frame_count "@ + decimal(self.frame_count as nat)
                    + " exceeds configured maximum "@ + decimal(self.max_frame_count()) + " ("@
                    + decimal(self.sample_rate_hz as nat) + " Hz × "@ + decimal(
                    self.max_render_seconds as nat,
                ) + " s)"@,
            )
        } else {
            None
        }
    }
}

/// Writes half of a sample rate.
fn nyquist_decimal(sample_rate_hz: u32) -> (text: String)
    ensures
        text@ == nyquist_text(sample_rate_hz),
{
    let whole: String = decimal_text((sample_rate_hz / 2) as u64);
    if sample_rate_hz % 2 == 0 {
        whole
    } else {
        whole.concat(".5")
    }
}

/// Names what is wrong with a frequency.
pub(crate) fn find_frequency_fault(
    frequency_hz: Double,
    sample_rate_hz: u32,
    name: &str,
) -> (fault: Option<String>)
    ensures
        fault.is_some() == frequency_fault(frequency_hz, sample_rate_hz, name@).is_some(),
        fault matches Some(text) ==> frequency_fault(frequency_hz, sample_rate_hz, name@) == Some(
            text@,
        ),
{
    if !frequency_hz.is_finite() {
        return Some(name.to_owned().concat(" must be finite"));
    }
    if frequency_hz.less_than(zero()) {
        return Some(name.to_owned().concat(" must be greater than or equal to 0"));
    }
    if !frequency_hz.less_than(nyquist(sample_rate_hz)) {
        return Some(
            name.to_owned().concat(" must be below Nyquist (").concat(
                nyquist_decimal(sample_rate_hz).as_str(),
            ).concat(" Hz for sample_rate_hz ").concat(
                decimal_text(sample_rate_hz as u64).as_str(),
            ).concat(")"),
        );
    }
    None
}

/// A configuration that keeps every rule. A frequency that was not asked for is the
/// default one, whatever the rate.
#[derive(Debug)]
pub struct RenderConfig {
    settings: Settings,
}

impl View for RenderConfig {
    type V = Settings;

    closed spec fn view(&self) -> Settings {
        self.settings
    }
}

impl RenderConfig {
    /// No configuration breaks a rule.
    #[verifier::type_invariant]
    spec fn valid(self) -> bool {
        self.settings.fault(false).is_none()
    }

    /// Starts a configuration in which every value has its default.
    pub fn builder() -> (builder: RenderConfigBuilder)
        ensures
            builder == empty_builder(),
    {
        RenderConfigBuilder {
            sample_rate_hz: None,
            frame_count: None,
            batch_frame_capacity: None,
            frequency_hz: None,
            pulse_width: None,
            gain: None,
            max_render_seconds: None,
        }
    }

    /// All the values.
    pub fn settings(&self) -> (settings: Settings)
        ensures
            settings == self@,
            settings.fault(false).is_none(),
    {
        proof {
            use_type_invariant(self);
        }
        self.settings
    }

    /// Frames per second.
    pub fn sample_rate_hz(&self) -> (r: u32)
        ensures
            r == self@.sample_rate_hz,
            r > 0,
    {
        self.settings().sample_rate_hz
    }

    /// How many frames a render has.
    pub fn frame_count(&self) -> (r: u64)
        ensures
            r == self@.frame_count,
            r > 0,
    {
        self.settings().frame_count
    }

    /// How many frames a batch holds at most.
    pub fn batch_frame_capacity(&self) -> (r: usize)
        ensures
            r == self@.batch_frame_capacity,
            r > 0,
    {
        self.settings().batch_frame_capacity
    }

    /// The frequency of oscillators that have none of their own.
    pub fn frequency_hz(&self) -> (r: Double)
        ensures
            r == self@.frequency_hz,
    {
        self.settings().frequency_hz
    }

    /// Fraction of a square-wave period spent at one, from zero to one.
    pub fn pulse_width(&self) -> (r: Double)
        ensures
            r == self@.pulse_width,
            pulse_width_valid(r),
    {
        self.settings().pulse_width
    }

    /// The gain factor.
    pub fn gain(&self) -> (r: Single)
        ensures
            r == self@.gain,
            r.finite(),
    {
        self.settings().gain
    }

    /// The longest render that is allowed.
    pub fn max_render_seconds(&self) -> (r: u64)
        ensures
            r == self@.max_render_seconds,
            r > 0,
    {
        self.settings().max_render_seconds
    }
}

impl Clone for RenderConfig {
    fn clone(&self) -> (r: Self)
        ensures
            r@ == self@,
    {
        proof {
            use_type_invariant(self);
        }
        RenderConfig { settings: self.settings }
    }
}

/// The defaults keep every rule, that on the frequency too.
pub proof fn defaults_are_valid()
    ensures
        empty_builder().settings().fault(true).is_none(),
        empty_builder().settings().fault(false).is_none(),
{
    let frequency = Double { bits: 0x407b_8000_0000_0000 };
    let pulse_width = Double { bits: 0x3fe0_0000_0000_0000 };
    lemma_bounds();
    lemma2_to64();
    lemma2_to64_rest();
    // 440 is 440 * 2^44 steps of 2^-44.
    lemma_compose(52, 1030, 440 * pow2(44));
    lemma_pow2_adds(44, 1030);
    assert(1030 * 0x10_0000_0000_0000 + 440 * 0x1000_0000_0000 == 0x407b_8000_0000_0000);
    assert((440 * pow2(44)) * pow2(1030) == 440 * pow2(1074)) by (nonlinear_arith)
        requires
            pow2(44) * pow2(1030) == pow2(1074),
    ;
    // A half is 2^52 steps of 2^-53.
    lemma_compose(52, 1021, pow2(52));
    lemma_pow2_adds(52, 1021);
    lemma_pow2_unfold(1074);
    lemma_pow2_pos(1074);
    assert(frequency.value() == 440 * pow2(1074));
    assert(pulse_width.value() == pow2(1073));
}

impl Default for RenderConfig {
    fn default() -> (r: Self)
        ensures
            r@ == empty_builder().settings(),
    {
        proof {
            defaults_are_valid();
        }
        RenderConfig {
            settings: Settings {
                sample_rate_hz: 48_000,
                frame_count: 48_000,
                batch_frame_capacity: 1024,
                frequency_hz: Double { bits: 0x407b_8000_0000_0000 },
                pulse_width: Double { bits: 0x3fe0_0000_0000_0000 },
                gain: Single { bits: 0x3f00_0000 },
                max_render_seconds: 60,
            },
        }
    }
}

/// Checks every rule, in their order, and reports the first that is broken. The frequency
/// is checked only where it was given.
pub fn validate(settings: &Settings, frequency_given: bool) -> (r: Result<()>)
    ensures
        r.is_ok() == settings.fault(frequency_given).is_none(),
        r matches Err(error) ==> (error matches Error::InvalidConfig(text) && settings.fault(
            frequency_given,
        ) == Some(text@)),
{
    if settings.sample_rate_hz == 0 {
        return Err(Error::InvalidConfig("sample_rate_hz must be greater than 0".to_owned()));
    }
    if settings.frame_count == 0 {
        return Err(Error::InvalidConfig("frame_count must be greater than 0".to_owned()));
    }
    if settings.batch_frame_capacity == 0 {
        return Err(
            Error::InvalidConfig("batch_frame_capacity must be greater than 0".to_owned()),
        );
    }
    if frequency_given {
        if let Some(fault) = find_frequency_fault(
            settings.frequency_hz,
            settings.sample_rate_hz,
            "frequency_hz",
        ) {
            return Err(Error::InvalidConfig(fault));
        }
    }
    if !settings.pulse_width.is_finite() || settings.pulse_width.less_than(zero())
        || one().less_than(settings.pulse_width) {
        return Err(
            Error::InvalidConfig(
                "pulse_width must be finite and between 0 and 1 inclusive".to_owned(),
            ),
        );
    }
    if !settings.gain.is_finite() {
        return Err(Error::InvalidConfig("gain must be finite".to_owned()));
    }
    if settings.max_render_seconds == 0 {
        return Err(Error::InvalidConfig("max_render_seconds must be greater than 0".to_owned()));
    }
    match (settings.sample_rate_hz as u64).checked_mul(settings.max_render_seconds) {
        None => Err(
            Error::InvalidConfig(
                "sample_rate_hz × max_render_seconds overflows frame_count".to_owned(),
            ),
        ),
        Some(max_frame_count) => {
            if settings.frame_count > max_frame_count {
                Err(
                    Error::InvalidConfig(
                        "frame_count ".to_owned().concat(
                            decimal_text(settings.frame_count).as_str(),
                        ).concat(" exceeds configured maximum ").concat(
                            decimal_text(max_frame_count).as_str(),
                        ).concat(" (").concat(
                            decimal_text(settings.sample_rate_hz as u64).as_str(),
                        ).concat(" Hz × ").concat(
                            decimal_text(settings.max_render_seconds).as_str(),
                        ).concat(" s)"),
                    ),
                )
            } else {
                Ok(())
            }
        },
    }
}

/// The values of a configuration that were given so far.
#[derive(Debug)]
pub struct RenderConfigBuilder {
    /// Frames per second.
    pub sample_rate_hz: Option<u32>,
    /// How many frames a render has.
    pub frame_count: Option<u64>,
    /// How many frames a batch holds at most.
    pub batch_frame_capacity: Option<usize>,
    /// The frequency of oscillators that have none of their own.
    pub frequency_hz: Option<Double>,
    /// The fraction of a square-wave period spent at one.
    pub pulse_width: Option<Double>,
    /// The gain factor.
    pub gain: Option<Single>,
    /// The longest render that is allowed.
    pub max_render_seconds: Option<u64>,
}

/// A builder to which nothing was given.
pub open spec fn empty_builder() -> RenderConfigBuilder {
    RenderConfigBuilder {
        sample_rate_hz: None,
        frame_count: None,
        batch_frame_capacity: None,
        frequency_hz: None,
        pulse_width: None,
        gain: None,
        max_render_seconds: None,
    }
}

/// What was given, or else the default.
pub open spec fn given<T>(value: Option<T>, default: T) -> T {
    match value {
        Some(value) => value,
        None => default,
    }
}

impl Default for RenderConfigBuilder {
    fn default() -> (r: Self)
        ensures
            r == empty_builder(),
    {
        RenderConfig::builder()
    }
}

impl RenderConfigBuilder {
    /// The values given, the others by default: a second at 48 kHz in batches of 1024
    /// frames, 440 Hz, half a period at one, half the gain, and at most a minute.
    pub open spec fn settings(self) -> Settings {
        Settings {
            sample_rate_hz: given(self.sample_rate_hz, 48_000),
            frame_count: given(self.frame_count, 48_000),
            batch_frame_capacity: given(self.batch_frame_capacity, 1024),
            frequency_hz: given(self.frequency_hz, Double { bits: 0x407b_8000_0000_0000 }),
            pulse_width: given(self.pulse_width, Double { bits: 0x3fe0_0000_0000_0000 }),
            gain: given(self.gain, Single { bits: 0x3f00_0000 }),
            max_render_seconds: given(self.max_render_seconds, 60),
        }
    }

    /// The first rule that the values break. The frequency breaks none if it was not given.
    pub open spec fn fault(self) -> Option<Seq<char>> {
        self.settings().fault(self.frequency_hz.is_some())
    }

    /// Makes the configuration, unless a rule is broken.
    pub fn build(self) -> (r: Result<RenderConfig>)
        ensures
            r.is_ok() == self.fault().is_none(),
            r matches Ok(config) ==> config@ == self.settings(),
            r matches Ok(config) ==> self.frequency_hz.is_some() ==> frequency_fault(
                config@.frequency_hz,
                config@.sample_rate_hz,
                "frequency_hz"@,
            ).is_none(),
            r matches Err(error) ==> (error matches Error::InvalidConfig(text) && self.fault()
                == Some(text@)),
    {
        let frequency_given: bool = self.frequency_hz.is_some();
        let settings: Settings = Settings {
            sample_rate_hz: self.sample_rate_hz.unwrap_or(48_000),
            frame_count: self.frame_count.unwrap_or(48_000),
            batch_frame_capacity: self.batch_frame_capacity.unwrap_or(1024),
            frequency_hz: self.frequency_hz.unwrap_or(Double { bits: 0x407b_8000_0000_0000 }),
            pulse_width: self.pulse_width.unwrap_or(Double { bits: 0x3fe0_0000_0000_0000 }),
            gain: self.gain.unwrap_or(Single { bits: 0x3f00_0000 }),
            max_render_seconds: self.max_render_seconds.unwrap_or(60),
        };
        match validate(&settings, frequency_given) {
            Ok(()) => Ok(RenderConfig { settings }),
            Err(error) => Err(error),
        }
    }

    /// Sets the frames per second.
    pub fn sample_rate_hz(self, sample_rate_hz: u32) -> (r: Self)
        ensures
            r == (RenderConfigBuilder { sample_rate_hz: Some(sample_rate_hz), ..self }),
    {
        RenderConfigBuilder { sample_rate_hz: Some(sample_rate_hz), ..self }
    }

    /// Sets how many frames a render has.
    pub fn frame_count(self, frame_count: u64) -> (r: Self)
        ensures
            r == (RenderConfigBuilder { frame_count: Some(frame_count), ..self }),
    {
        RenderConfigBuilder { frame_count: Some(frame_count), ..self }
    }

    /// Sets how many frames a batch holds at most.
    pub fn batch_frame_capacity(self, batch_frame_capacity: usize) -> (r: Self)
        ensures
            r == (RenderConfigBuilder { batch_frame_capacity: Some(batch_frame_capacity), ..self }),
    {
        RenderConfigBuilder { batch_frame_capacity: Some(batch_frame_capacity), ..self }
    }

    /// Sets the frequency of oscillators that have none of their own. One that is set is
    /// checked.
    pub fn frequency_hz(self, frequency_hz: Double) -> (r: Self)
        ensures
            r == (RenderConfigBuilder { frequency_hz: Some(frequency_hz), ..self }),
    {
        RenderConfigBuilder { frequency_hz: Some(frequency_hz), ..self }
    }

    /// Sets the fraction of each square-wave period spent at one.
    pub fn pulse_width(self, pulse_width: Double) -> (r: Self)
        ensures
            r == (RenderConfigBuilder { pulse_width: Some(pulse_width), ..self }),
    {
        RenderConfigBuilder { pulse_width: Some(pulse_width), ..self }
    }

    /// Sets the gain factor.
    pub fn gain(self, gain: Single) -> (r: Self)
        ensures
            r == (RenderConfigBuilder { gain: Some(gain), ..self }),
    {
        RenderConfigBuilder { gain: Some(gain), ..self }
    }

    /// Sets the longest render that is allowed.
    pub fn max_render_seconds(self, max_render_seconds: u64) -> (r: Self)
        ensures
            r == (RenderConfigBuilder { max_render_seconds: Some(max_render_seconds), ..self }),
    {
        RenderConfigBuilder { max_render_seconds: Some(max_render_seconds), ..self }
    }
}

} // verus!
