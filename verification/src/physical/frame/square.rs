//! The square-wave oscillator.
use crate::arrow::{
    batch_frames, batch_rows, batch_samples, frame_typed, new_batch, present, schema_columns,
    FrameBatch,
};
use crate::config::{frequency_fault, pulse_width_valid, RenderConfig};
use crate::dsp::{square_at_frame, square_sample};
use crate::ieee::constants::{one, zero};
use crate::ieee::number::{Double, Single};
use crate::layout::frame_schema;
use crate::physical::frame::node::{
    batch_end, check_partition, execution_error, frame_run, internal_error, list_frames,
    partition_fault, plan_error, validate_frequency, Emission, Extent, NodeError, NodeResult,
    Properties,
};
use crate::physical::frame::plan::{Graph, Plan};
use crate::physical::frame::sine::{oscillator_properties, Oscillation};
use crate::render::is_frame_batch;
use std::sync::Arc;
use vstd::prelude::*;

verus! {

/// Generates a square wave without end.
#[derive(Debug)]
pub struct FrameSquareOscExec {
    pub(crate) sample_rate_hz: u32,
    pub(crate) frequency_hz: Double,
    pub(crate) pulse_width: Double,
    pub(crate) batch_frame_capacity: usize,
    pub(crate) properties: Properties,
}

/// The values of a square-wave oscillator.
pub struct Square {
    /// Frames per second.
    pub sample_rate_hz: u32,
    /// Its frequency.
    pub frequency_hz: Double,
    /// The fraction of the period spent at one.
    pub pulse_width: Double,
    /// How many frames a batch holds.
    pub batch_frame_capacity: usize,
}

impl View for FrameSquareOscExec {
    type V = Square;

    open(crate) spec fn view(&self) -> Square {
        Square {
            sample_rate_hz: self.sample_rate_hz,
            frequency_hz: self.frequency_hz,
            pulse_width: self.pulse_width,
            batch_frame_capacity: self.batch_frame_capacity,
        }
    }
}

/// What is wrong with the values of a square-wave oscillator.
pub open spec fn square_fault(
    frequency_hz: Double,
    pulse_width: Double,
    sample_rate_hz: u32,
) -> Option<Seq<char>> {
    if frequency_fault(frequency_hz, sample_rate_hz, "frequency_hz"@).is_some() {
        frequency_fault(frequency_hz, sample_rate_hz, "frequency_hz"@)
    } else if !pulse_width_valid(pulse_width) {
        Some("pulse_width must be finite and between 0 and 1 inclusive"@)
    } else {
        None
    }
}

/// What is known of a square-wave oscillator before it runs.
fn square_properties(config: &RenderConfig) -> (properties: Properties)
    ensures
        properties.is_frame_signal(config@.sample_rate_hz),
        frame_typed(schema_columns(*properties.schema)),
        oscillator_properties(properties, false),
{
    Properties {
        schema: frame_schema(config),
        partitions: 1,
        emission: Emission::Incremental,
        extent: Extent::Unbounded { requires_infinite_memory: false },
        frame_ordered: false,
    }
}

impl FrameSquareOscExec {
    /// The schema holds frames and samples.
    #[verifier::type_invariant]
    pub(crate) open(crate) spec fn wf(self) -> bool {
        &&& frame_typed(schema_columns(*self.properties.schema))
        &&& self.properties.is_frame_signal(self.sample_rate_hz)
    }

    /// Makes an oscillator with a frequency and a pulse width of its own.
    pub fn try_new(config: &RenderConfig, frequency_hz: Double, pulse_width: Double) -> (r:
        NodeResult<FrameSquareOscExec>)
        ensures
            r.is_ok() == square_fault(
                frequency_hz,
                pulse_width,
                config@.sample_rate_hz,
            ).is_none(),
            r matches Ok(node) ==> {
                &&& node@ == (Square {
                    sample_rate_hz: config@.sample_rate_hz,
                    frequency_hz,
                    pulse_width,
                    batch_frame_capacity: config@.batch_frame_capacity,
                })
                &&& Plan::Square(node).graph() == Graph::Square(node@)
                &&& Plan::Square(node).known().is_frame_signal(config@.sample_rate_hz)
                &&& oscillator_properties(Plan::Square(node).known(), false)
            },
            r matches Err(error) ==> square_fault(
                frequency_hz,
                pulse_width,
                config@.sample_rate_hz,
            ) matches Some(reason) && plan_error(error, reason),
    {
        validate_frequency(frequency_hz, config.sample_rate_hz(), "frequency_hz")?;
        if !pulse_width.is_finite() || pulse_width.less_than(zero())
            || one().less_than(pulse_width) {
            return Err(
                NodeError::Plan(
                    "pulse_width must be finite and between 0 and 1 inclusive".to_owned(),
                ),
            );
        }
        Ok(
            FrameSquareOscExec {
                sample_rate_hz: config.sample_rate_hz(),
                frequency_hz,
                pulse_width,
                batch_frame_capacity: config.batch_frame_capacity(),
                properties: square_properties(config),
            },
        )
    }

    /// Makes an oscillator with the configuration's frequency and pulse width. The frequency
    /// is used as it is: where nobody asked for it, it may be too high for the rate.
    pub fn new(config: &RenderConfig) -> (node: FrameSquareOscExec)
        ensures
            node@ == (Square {
                sample_rate_hz: config@.sample_rate_hz,
                frequency_hz: config@.frequency_hz,
                pulse_width: config@.pulse_width,
                batch_frame_capacity: config@.batch_frame_capacity,
            }),
            Plan::Square(node).graph() == Graph::Square(node@),
            Plan::Square(node).known().is_frame_signal(config@.sample_rate_hz),
            oscillator_properties(Plan::Square(node).known(), false),
    {
        FrameSquareOscExec {
            sample_rate_hz: config.sample_rate_hz(),
            frequency_hz: config.frequency_hz(),
            pulse_width: config.pulse_width(),
            batch_frame_capacity: config.batch_frame_capacity(),
            properties: square_properties(config),
        }
    }

    /// The node's name.
    pub fn name(&self) -> (name: &str)
        ensures
            name@ == "FrameSquareOscExec"@,
    {
        "FrameSquareOscExec"
    }

    /// The oscillator's frequency.
    pub fn frequency_hz(&self) -> (r: Double)
        ensures
            r == self@.frequency_hz,
    {
        self.frequency_hz
    }

    /// The fraction of the period spent at one.
    pub fn pulse_width(&self) -> (r: Double)
        ensures
            r == self@.pulse_width,
    {
        self.pulse_width
    }

    /// Frames per second.
    pub fn sample_rate_hz(&self) -> (r: u32)
        ensures
            r == self@.sample_rate_hz,
    {
        self.sample_rate_hz
    }

    /// How many frames a batch holds.
    pub fn batch_frame_capacity(&self) -> (r: usize)
        ensures
            r == self@.batch_frame_capacity,
    {
        self.batch_frame_capacity
    }

    /// A copy that shares the schema.
    fn duplicate(&self) -> (r: FrameSquareOscExec)
        ensures
            r == *self,
    {
        proof {
            use_type_invariant(self);
        }
        FrameSquareOscExec {
            sample_rate_hz: self.sample_rate_hz,
            frequency_hz: self.frequency_hz,
            pulse_width: self.pulse_width,
            batch_frame_capacity: self.batch_frame_capacity,
            properties: self.properties.duplicate(),
        }
    }

    /// An oscillator has no inputs.
    pub fn children(&self) -> (r: Vec<Arc<Plan>>)
        ensures
            r@.len() == 0,
    {
        Vec::new()
    }

    /// An oscillator has no inputs to replace.
    pub fn with_new_children(&self, children: Vec<Arc<Plan>>) -> (r: NodeResult<FrameSquareOscExec>)
        ensures
            r.is_ok() == (children@.len() == 0),
            r matches Ok(node) ==> node == *self,
            r matches Err(error) ==> internal_error(error, "FrameSquareOscExec has no children"@),
    {
        if children.len() == 0 {
            Ok(self.duplicate())
        } else {
            Err(NodeError::Internal("FrameSquareOscExec has no children".to_owned()))
        }
    }

    /// Starts the oscillator's only stream, at the first frame.
    pub fn execute(&self, partition: usize) -> (r: NodeResult<SquareRun>)
        ensures
            r.is_ok() == (partition == 0),
            r matches Ok(run) ==> run@ == (Oscillation { node: self@, next_frame: 0 }),
            r matches Err(error) ==> partition_fault("FrameSquareOscExec"@, partition) matches Some(
                reason,
            ) && execution_error(error, reason),
    {
        proof {
            use_type_invariant(self);
        }
        check_partition("FrameSquareOscExec", partition)?;
        Ok(
            SquareRun {
                node: self.duplicate(),
                next_frame: 0,
            },
        )
    }
}

/// A stream of a square-wave oscillator.
pub struct SquareRun {
    node: FrameSquareOscExec,
    next_frame: u64,
}

impl View for SquareRun {
    type V = Oscillation<Square>;

    closed spec fn view(&self) -> Oscillation<Square> {
        Oscillation { node: self.node@, next_frame: self.next_frame }
    }
}

impl SquareRun {
    /// Hands out the next batch.
    pub fn next_batch(&mut self) -> (r: NodeResult<FrameBatch>)
        ensures
            r.is_ok() == (old(self)@.next_frame + old(self)@.node.batch_frame_capacity
                <= u64::MAX),
            r matches Ok(batch) ==> {
                let end = (old(self)@.next_frame + old(self)@.node.batch_frame_capacity) as u64;
                &&& final(self)@ == (Oscillation { next_frame: end, ..old(self)@ })
                &&& is_frame_batch(batch, old(self)@.node.sample_rate_hz)
                &&& batch_rows(batch) == old(self)@.node.batch_frame_capacity
                &&& batch_frames(batch) == present(frame_run(old(self)@.next_frame, end))
                &&& batch_samples(batch) == present(square_samples(old(self)@, end))
            },
            r matches Err(error) ==> {
                &&& final(self)@ == old(self)@
                &&& execution_error(
                    error,
                    "FrameSquareOscExec"@ + " exhausted the UInt64 frame domain"@,
                )
            },
    {
        let end: u64 = batch_end(
            "FrameSquareOscExec",
            self.next_frame,
            self.node.batch_frame_capacity,
        )?;
        proof {
            use_type_invariant(&self.node);
        }
        let frames: Vec<u64> = list_frames(self.next_frame, end);
        let mut samples: Vec<Single> = Vec::new();
        let mut frame: u64 = self.next_frame;
        assert(samples@ =~= square_samples(self@, frame));
        while frame < end
            invariant
                self.next_frame <= frame <= end,
                samples@ == square_samples(self@, frame),
            decreases end - frame,
        {
            samples.push(
                square_at_frame(
                    frame,
                    self.node.sample_rate_hz,
                    self.node.frequency_hz,
                    self.node.pulse_width,
                ),
            );
            frame += 1;
            assert(samples@ =~= square_samples(self@, frame));
        }
        match new_batch(self.node.properties.schema.clone(), frames, samples) {
            Ok(batch) => {
                self.next_frame = end;
                Ok(batch)
            },
            Err(error) => Err(NodeError::Arrow(error)),
        }
    }
}

/// The samples of a square wave from the next frame up to `end`.
pub open spec fn square_samples(run: Oscillation<Square>, end: u64) -> Seq<Single> {
    frame_run(run.next_frame, end).map_values(
        |frame: u64|
            square_sample(
                frame,
                run.node.sample_rate_hz,
                run.node.frequency_hz,
                run.node.pulse_width,
            ),
    )
}

} // verus!
