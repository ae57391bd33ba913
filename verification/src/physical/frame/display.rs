//! How nodes are shown.
use crate::arrow::{
    double_text, double_to_text, single_debug_text, single_text, single_to_debug_text,
    single_to_text,
};
use crate::ieee::number::{Double, Single};
use crate::physical::frame::gain::FrameGainExec;
use crate::physical::frame::low_pass_filter::FrameLowPassFilterExec;
use crate::physical::frame::mix::FrameMixExec;
use crate::physical::frame::plan::{Graph, Plan};
use crate::physical::frame::sine::{FrameSineOscExec, Sine};
use crate::physical::frame::square::{FrameSquareOscExec, Square};
use crate::text::{decimal, decimal_text};
use vstd::prelude::*;

verus! {

/// How much of a node is shown.
#[derive(Clone, Copy, Debug, PartialEq, Eq, Structural)]
pub enum DisplayFormat {
    /// One line.
    Default,
    /// One line with everything.
    Verbose,
    /// A line for each value, without the name.
    Tree,
}

/// A frequency, as it is shown.
pub open spec fn hertz(frequency_hz: Double) -> Seq<char> {
    double_text(frequency_hz.bits) + "hz"@
}

/// How a sine oscillator is shown.
pub open spec fn sine_shown(node: Sine, format: DisplayFormat) -> Seq<char> {
    match format {
        DisplayFormat::Default => "FrameSineOscExec: frequency="@ + hertz(node.frequency_hz),
        DisplayFormat::Verbose => "FrameSineOscExec: frequency="@ + hertz(node.frequency_hz)
            + ", sample_rate="@ + decimal(node.sample_rate_hz as nat)
            + "hz, batch_frame_capacity="@ + decimal(node.batch_frame_capacity as nat),
        DisplayFormat::Tree => "frequency="@ + hertz(node.frequency_hz) + "\nsample_rate="@
            + decimal(node.sample_rate_hz as nat) + "hz\nbatch_frame_capacity="@ + decimal(
            node.batch_frame_capacity as nat,
        ),
    }
}

/// How a square-wave oscillator is shown.
pub open spec fn square_shown(node: Square, format: DisplayFormat) -> Seq<char> {
    match format {
        DisplayFormat::Default => "FrameSquareOscExec: frequency="@ + hertz(node.frequency_hz)
            + ", pulse_width="@ + double_text(node.pulse_width.bits),
        DisplayFormat::Verbose => "FrameSquareOscExec: frequency="@ + hertz(node.frequency_hz)
            + ", pulse_width="@ + double_text(node.pulse_width.bits) + ", sample_rate="@ + decimal(
            node.sample_rate_hz as nat,
        ) + "hz, batch_frame_capacity="@ + decimal(node.batch_frame_capacity as nat),
        DisplayFormat::Tree => "frequency="@ + hertz(node.frequency_hz) + "\npulse_width="@
            + double_text(node.pulse_width.bits) + "\nsample_rate="@ + decimal(
            node.sample_rate_hz as nat,
        ) + "hz\nbatch_frame_capacity="@ + decimal(node.batch_frame_capacity as nat),
    }
}

/// How a gain is shown.
pub open spec fn gain_shown(factor: Single, format: DisplayFormat) -> Seq<char> {
    match format {
        DisplayFormat::Tree => "gain="@ + single_text(factor.bits),
        _ => "FrameGainExec: gain="@ + single_text(factor.bits),
    }
}

/// How a low-pass filter is shown.
pub open spec fn low_pass_shown(cutoff_hz: Double, format: DisplayFormat) -> Seq<char> {
    match format {
        DisplayFormat::Tree => "cutoff="@ + hertz(cutoff_hz),
        _ => "FrameLowPassFilterExec: cutoff="@ + hertz(cutoff_hz),
    }
}

/// The first `count` gains, as they are shown.
pub open spec fn listed(gains: Seq<Single>, count: nat) -> Seq<char>
    decreases count,
{
    if count == 0 {
        "["@
    } else if count == 1 {
        listed(gains, 0) + single_debug_text(gains[0].bits)
    } else {
        listed(gains, (count - 1) as nat) + ", "@ + single_debug_text(gains[count - 1].bits)
    }
}

/// How a mixer is shown.
pub open spec fn mix_shown(gains: Seq<Single>, format: DisplayFormat) -> Seq<char> {
    match format {
        DisplayFormat::Tree => "gains="@ + (listed(gains, gains.len()) + "]"@),
        _ => "FrameMixExec: gains="@ + (listed(gains, gains.len()) + "]"@),
    }
}

/// Writes a frequency.
fn hertz_text(frequency_hz: Double) -> (text: String)
    ensures
        text@ == hertz(frequency_hz),
{
    double_to_text(frequency_hz).concat("hz")
}

impl FrameSineOscExec {
    /// Shows the node.
    pub fn describe(&self, format: DisplayFormat) -> (text: String)
        ensures
            text@ == sine_shown(self@, format),
    {
        let frequency: String = hertz_text(self.frequency_hz);
        let sample_rate: String = decimal_text(self.sample_rate_hz as u64);
        let capacity: String = decimal_text(self.batch_frame_capacity as u64);
        match format {
            DisplayFormat::Default => {
                "FrameSineOscExec: frequency=".to_owned().concat(frequency.as_str())
            },
            DisplayFormat::Verbose => {
                "FrameSineOscExec: frequency=".to_owned().concat(frequency.as_str()).concat(
                    ", sample_rate=",
                ).concat(sample_rate.as_str()).concat("hz, batch_frame_capacity=").concat(
                    capacity.as_str(),
                )
            },
            DisplayFormat::Tree => {
                "frequency=".to_owned().concat(frequency.as_str()).concat("\nsample_rate=").concat(
                    sample_rate.as_str(),
                ).concat("hz\nbatch_frame_capacity=").concat(capacity.as_str())
            },
        }
    }
}

impl FrameSquareOscExec {
    /// Shows the node.
    pub fn describe(&self, format: DisplayFormat) -> (text: String)
        ensures
            text@ == square_shown(self@, format),
    {
        let frequency: String = hertz_text(self.frequency_hz);
        let pulse_width: String = double_to_text(self.pulse_width);
        let sample_rate: String = decimal_text(self.sample_rate_hz as u64);
        let capacity: String = decimal_text(self.batch_frame_capacity as u64);
        match format {
            DisplayFormat::Default => {
                "FrameSquareOscExec: frequency=".to_owned().concat(frequency.as_str()).concat(
                    ", pulse_width=",
                ).concat(pulse_width.as_str())
            },
            DisplayFormat::Verbose => {
                "FrameSquareOscExec: frequency=".to_owned().concat(frequency.as_str()).concat(
                    ", pulse_width=",
                ).concat(pulse_width.as_str()).concat(", sample_rate=").concat(
                    sample_rate.as_str(),
                ).concat("hz, batch_frame_capacity=").concat(capacity.as_str())
            },
            DisplayFormat::Tree => {
                "frequency=".to_owned().concat(frequency.as_str()).concat("\npulse_width=").concat(
                    pulse_width.as_str(),
                ).concat("\nsample_rate=").concat(sample_rate.as_str()).concat(
                    "hz\nbatch_frame_capacity=",
                ).concat(capacity.as_str())
            },
        }
    }
}

impl FrameGainExec {
    /// Shows the node.
    pub fn describe(&self, format: DisplayFormat) -> (text: String)
        ensures
            Plan::Gain(*self).graph() matches Graph::Gain { input, factor } && text@ == gain_shown(
                factor,
                format,
            ),
    {
        let factor: String = single_to_text(self.gain);
        match format {
            DisplayFormat::Tree => "gain=".to_owned().concat(factor.as_str()),
            _ => "FrameGainExec: gain=".to_owned().concat(factor.as_str()),
        }
    }
}

impl FrameLowPassFilterExec {
    /// Shows the node.
    pub fn describe(&self, format: DisplayFormat) -> (text: String)
        ensures
            Plan::LowPass(*self).graph() matches Graph::LowPass { input, cutoff_hz, exponent }
                && text@ == low_pass_shown(cutoff_hz, format),
    {
        let cutoff: String = hertz_text(self.cutoff_hz);
        match format {
            DisplayFormat::Tree => "cutoff=".to_owned().concat(cutoff.as_str()),
            _ => "FrameLowPassFilterExec: cutoff=".to_owned().concat(cutoff.as_str()),
        }
    }
}

impl FrameMixExec {
    /// Shows the node.
    pub fn describe(&self, format: DisplayFormat) -> (text: String)
        ensures
            Plan::Mix(*self).graph() matches Graph::Mix { inputs, gains, batch_frame_capacity }
                && text@ == mix_shown(gains, format),
    {
        let mut list: String = "[".to_owned();
        let mut i: usize = 0;
        while i < self.gains.len()
            invariant
                i <= self.gains@.len(),
                list@ == listed(self.gains@, i as nat),
            decreases self.gains@.len() - i,
        {
            if i > 0 {
                list = list.concat(", ");
            }
            list = list.concat(single_to_debug_text(self.gains[i]).as_str());
            i += 1;
        }
        let list: String = list.concat("]");
        match format {
            DisplayFormat::Tree => "gains=".to_owned().concat(list.as_str()),
            _ => "FrameMixExec: gains=".to_owned().concat(list.as_str()),
        }
    }
}

/// Every gain of a mixer is shown, in its place, behind a comma but for the first.
pub proof fn every_gain_is_listed(gains: Seq<Single>, index: nat)
    requires
        index < gains.len(),
    ensures
        listed(gains, 0) == "["@,
        listed(gains, index + 1) == listed(gains, index) + (if index == 0 {
            ""@
        } else {
            ", "@
        }) + single_debug_text(gains[index as int].bits),
{
    reveal_strlit("");
    assert(listed(gains, index) + ""@ =~= listed(gains, index));
}

} // verus!
