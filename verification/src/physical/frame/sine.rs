//! The sine oscillator.
use crate::arrow::{
    batch_frames, batch_rows, batch_samples, frame_typed, new_batch, present, schema_columns,
    FrameBatch,
};
use crate::config::{frequency_fault, RenderConfig};
use crate::dsp::{sine_phase, sine_phase_at_frame};
use crate::ieee::closeness::agrees;
use crate::ieee::convert::narrowed;
use crate::ieee::number::{Double, Single};
use crate::layout::frame_schema;
use crate::physical::frame::node::{
    batch_end, check_partition, execution_error, frame_run, internal_error, list_frames,
    partition_fault, plan_error, validate_frequency, Emission, Extent, NodeError, NodeResult,
    Properties,
};
use crate::physical::frame::plan::{Graph, Plan};
use crate::render::is_frame_batch;
use std::sync::Arc;
use vstd::arithmetic::power2::pow2;
use vstd::prelude::*;

verus! {

/// Generates a sine wave without end.
#[derive(Debug)]
pub struct FrameSineOscExec {
    pub(crate) sample_rate_hz: u32,
    pub(crate) frequency_hz: Double,
    pub(crate) batch_frame_capacity: usize,
    pub(crate) properties: Properties,
}

/// What is known of an oscillator before it runs.
pub open spec fn oscillator_properties(properties: Properties, ordered: bool) -> bool {
    &&& properties.partitions == 1
    &&& properties.emission == Emission::Incremental
    &&& properties.extent == (Extent::Unbounded { requires_infinite_memory: false })
    &&& properties.frame_ordered == ordered
}

/// The values of a sine oscillator.
pub struct Sine {
    /// Frames per second.
    pub sample_rate_hz: u32,
    /// Its frequency.
    pub frequency_hz: Double,
    /// How many frames a batch holds.
    pub batch_frame_capacity: usize,
}

impl View for FrameSineOscExec {
    type V = Sine;

    open(crate) spec fn view(&self) -> Sine {
        Sine {
            sample_rate_hz: self.sample_rate_hz,
            frequency_hz: self.frequency_hz,
            batch_frame_capacity: self.batch_frame_capacity,
        }
    }
}

/// What is known of a sine oscillator before it runs.
fn sine_properties(config: &RenderConfig) -> (properties: Properties)
    ensures
        properties.is_frame_signal(config@.sample_rate_hz),
        frame_typed(schema_columns(*properties.schema)),
        oscillator_properties(properties, true),
{
    Properties {
        schema: frame_schema(config),
        partitions: 1,
        emission: Emission::Incremental,
        extent: Extent::Unbounded { requires_infinite_memory: false },
        frame_ordered: true,
    }
}

impl FrameSineOscExec {
    /// The schema holds frames and samples.
    #[verifier::type_invariant]
    pub(crate) open(crate) spec fn wf(self) -> bool {
        &&& frame_typed(schema_columns(*self.properties.schema))
        &&& self.properties.is_frame_signal(self.sample_rate_hz)
    }

    /// Makes an oscillator at a frequency of its own.
    pub fn try_new(config: &RenderConfig, frequency_hz: Double) -> (r: NodeResult<FrameSineOscExec>)
        ensures
            r.is_ok() == frequency_fault(
                frequency_hz,
                config@.sample_rate_hz,
                "frequency_hz"@,
            ).is_none(),
            r matches Ok(node) ==> {
                &&& node@ == (Sine {
                    sample_rate_hz: config@.sample_rate_hz,
                    frequency_hz,
                    batch_frame_capacity: config@.batch_frame_capacity,
                })
                &&& Plan::Sine(node).graph() == Graph::Sine(node@)
                &&& Plan::Sine(node).known().is_frame_signal(config@.sample_rate_hz)
                &&& oscillator_properties(Plan::Sine(node).known(), true)
            },
            r matches Err(error) ==> frequency_fault(
                frequency_hz,
                config@.sample_rate_hz,
                "frequency_hz"@,
            ) matches Some(reason) && plan_error(error, reason),
    {
        validate_frequency(frequency_hz, config.sample_rate_hz(), "frequency_hz")?;
        Ok(
            FrameSineOscExec {
                sample_rate_hz: config.sample_rate_hz(),
                frequency_hz,
                batch_frame_capacity: config.batch_frame_capacity(),
                properties: sine_properties(config),
            },
        )
    }

    /// Makes an oscillator at the configuration's frequency. It is used as it is: where
    /// nobody asked for it, it may be too high for the rate.
    pub fn new(config: &RenderConfig) -> (node: FrameSineOscExec)
        ensures
            node@ == (Sine {
                sample_rate_hz: config@.sample_rate_hz,
                frequency_hz: config@.frequency_hz,
                batch_frame_capacity: config@.batch_frame_capacity,
            }),
            Plan::Sine(node).graph() == Graph::Sine(node@),
            Plan::Sine(node).known().is_frame_signal(config@.sample_rate_hz),
            oscillator_properties(Plan::Sine(node).known(), true),
    {
        FrameSineOscExec {
            sample_rate_hz: config.sample_rate_hz(),
            frequency_hz: config.frequency_hz(),
            batch_frame_capacity: config.batch_frame_capacity(),
            properties: sine_properties(config),
        }
    }

    /// The node's name.
    pub fn name(&self) -> (name: &str)
        ensures
            name@ == "FrameSineOscExec"@,
    {
        "FrameSineOscExec"
    }

    /// The oscillator's frequency.
    pub fn frequency_hz(&self) -> (r: Double)
        ensures
            r == self@.frequency_hz,
    {
        self.frequency_hz
    }

    /// Frames per second.
    pub fn sample_rate_hz(&self) -> (r: u32)
        ensures
            r == self@.sample_rate_hz,
    {
        self.sample_rate_hz
    }

    /// How many frames a batch holds.
    pub fn batch_frame_capacity(&self) -> (r: usize)
        ensures
            r == self@.batch_frame_capacity,
    {
        self.batch_frame_capacity
    }

    /// A copy that shares the schema.
    fn duplicate(&self) -> (r: FrameSineOscExec)
        ensures
            r == *self,
    {
        proof {
            use_type_invariant(self);
        }
        FrameSineOscExec {
            sample_rate_hz: self.sample_rate_hz,
            frequency_hz: self.frequency_hz,
            batch_frame_capacity: self.batch_frame_capacity,
            properties: self.properties.duplicate(),
        }
    }

    /// An oscillator has no inputs.
    pub fn children(&self) -> (r: Vec<Arc<Plan>>)
        ensures
            r@.len() == 0,
    {
        Vec::new()
    }

    /// An oscillator has no inputs to replace.
    pub fn with_new_children(&self, children: Vec<Arc<Plan>>) -> (r: NodeResult<FrameSineOscExec>)
        ensures
            r.is_ok() == (children@.len() == 0),
            r matches Ok(node) ==> node == *self,
            r matches Err(error) ==> internal_error(error, "FrameSineOscExec has no children"@),
    {
        if children.len() == 0 {
            Ok(self.duplicate())
        } else {
            Err(NodeError::Internal("FrameSineOscExec has no children".to_owned()))
        }
    }

    /// Starts the oscillator's only stream, at the first frame.
    pub fn execute(&self, partition: usize) -> (r: NodeResult<SineRun>)
        ensures
            r.is_ok() == (partition == 0),
            r matches Ok(run) ==> run@ == (Oscillation { node: self@, next_frame: 0 }),
            r matches Err(error) ==> partition_fault("FrameSineOscExec"@, partition) matches Some(
                reason,
            ) && execution_error(error, reason),
    {
        proof {
            use_type_invariant(self);
        }
        check_partition("FrameSineOscExec", partition)?;
        Ok(
            SineRun {
                node: self.duplicate(),
                next_frame: 0,
            },
        )
    }
}

/// How far an oscillator has come.
pub struct Oscillation<N> {
    /// The oscillator.
    pub node: N,
    /// The frame that comes next.
    pub next_frame: u64,
}

/// A stream of a sine oscillator.
pub struct SineRun {
    node: FrameSineOscExec,
    next_frame: u64,
}

impl View for SineRun {
    type V = Oscillation<Sine>;

    closed spec fn view(&self) -> Oscillation<Sine> {
        Oscillation { node: self.node@, next_frame: self.next_frame }
    }
}

impl SineRun {
    /// The angles of the next batch, in radians. The batch's samples are their sines.
    pub fn next_phases(&self) -> (r: NodeResult<Vec<Double>>)
        ensures
            r.is_ok() == (self@.next_frame + self@.node.batch_frame_capacity <= u64::MAX),
            r matches Ok(phases) ==> phases@ == Seq::new(
                self@.node.batch_frame_capacity as nat,
                |i: int|
                    sine_phase(
                        (self@.next_frame + i) as u64,
                        self@.node.sample_rate_hz,
                        self@.node.frequency_hz,
                    ),
            ),
            r matches Ok(phases) ==> self@.node.sample_rate_hz > 0
                && self@.node.frequency_hz.finite() && 0 <= self@.node.frequency_hz.value()
                <= pow2(1106) ==> forall|i: int|
                0 <= i < phases@.len() ==> agrees(
                    (#[trigger] phases@[i]).value(),
                    6283185307179586 * ((self@.next_frame + i) * self@.node.frequency_hz.value()),
                    1_000_000_000_000_000 * self@.node.sample_rate_hz,
                    47,
                ),
            r matches Err(error) ==> execution_error(
                error,
                "FrameSineOscExec"@ + " exhausted the UInt64 frame domain"@,
            ),
    {
        let end: u64 = batch_end(
            "FrameSineOscExec",
            self.next_frame,
            self.node.batch_frame_capacity,
        )?;
        let mut phases: Vec<Double> = Vec::new();
        let mut frame: u64 = self.next_frame;
        while frame < end
            invariant
                self.next_frame <= frame <= end,
                end == self.next_frame + self.node.batch_frame_capacity,
                phases@ == Seq::new(
                    (frame - self.next_frame) as nat,
                    |i: int|
                        sine_phase(
                            (self@.next_frame + i) as u64,
                            self@.node.sample_rate_hz,
                            self@.node.frequency_hz,
                        ),
                ),
                self@.node.sample_rate_hz > 0 && self@.node.frequency_hz.finite() && 0
                    <= self@.node.frequency_hz.value() <= pow2(1106) ==> forall|i: int|
                    0 <= i < phases@.len() ==> agrees(
                        (#[trigger] phases@[i]).value(),
                        6283185307179586 * ((self@.next_frame + i)
                            * self@.node.frequency_hz.value()),
                        1_000_000_000_000_000 * self@.node.sample_rate_hz,
                        47,
                    ),
            decreases end - frame,
        {
            phases.push(
                sine_phase_at_frame(frame, self.node.sample_rate_hz, self.node.frequency_hz),
            );
            frame += 1;
            assert(phases@ =~= Seq::new(
                (frame - self.next_frame) as nat,
                |i: int|
                    sine_phase(
                        (self@.next_frame + i) as u64,
                        self@.node.sample_rate_hz,
                        self@.node.frequency_hz,
                    ),
            ));
        }
        Ok(phases)
    }

    /// Hands out the next batch, given the sines of its angles.
    pub fn next_batch(&mut self, sines: &Vec<Double>) -> (r: NodeResult<FrameBatch>)
        requires
            sines@.len() == old(self)@.node.batch_frame_capacity,
        ensures
            r.is_ok() == (old(self)@.next_frame + old(self)@.node.batch_frame_capacity
                <= u64::MAX),
            r matches Ok(batch) ==> {
                let end = (old(self)@.next_frame + old(self)@.node.batch_frame_capacity) as u64;
                &&& final(self)@ == (Oscillation { next_frame: end, ..old(self)@ })
                &&& is_frame_batch(batch, old(self)@.node.sample_rate_hz)
                &&& batch_rows(batch) == old(self)@.node.batch_frame_capacity
                &&& batch_frames(batch) == present(frame_run(old(self)@.next_frame, end))
                &&& batch_samples(batch) == present(
                    sines@.map_values(|sine: Double| narrowed(sine)),
                )
            },
            r matches Err(error) ==> {
                &&& final(self)@ == old(self)@
                &&& execution_error(
                    error,
                    "FrameSineOscExec"@ + " exhausted the UInt64 frame domain"@,
                )
            },
    {
        let end: u64 = batch_end(
            "FrameSineOscExec",
            self.next_frame,
            self.node.batch_frame_capacity,
        )?;
        proof {
            use_type_invariant(&self.node);
        }
        let frames: Vec<u64> = list_frames(self.next_frame, end);
        let mut samples: Vec<Single> = Vec::new();
        let mut i: usize = 0;
        while i < sines.len()
            invariant
                i <= sines@.len(),
                samples@ == sines@.take(i as int).map_values(|sine: Double| narrowed(sine)),
            decreases sines@.len() - i,
        {
            samples.push(sines[i].narrow());
            i += 1;
            assert(samples@ =~= sines@.take(i as int).map_values(|sine: Double| narrowed(sine)));
        }
        assert(sines@.take(i as int) =~= sines@);
        match new_batch(self.node.properties.schema.clone(), frames, samples) {
            Ok(batch) => {
                self.next_frame = end;
                Ok(batch)
            },
            Err(error) => Err(NodeError::Arrow(error)),
        }
    }
}

} // verus!
