//! Graphs of nodes.
use crate::arrow::schemas_equal;
use crate::config::RenderConfig;
use crate::ieee::number::{Double, Single};
use crate::layout::frame_schema;
use crate::physical::frame::gain::FrameGainExec;
use crate::physical::frame::low_pass_filter::FrameLowPassFilterExec;
use crate::physical::frame::mix::{graphs, FrameMixExec};
use crate::physical::frame::node::{
    is_mismatch_error, mismatch_error, Extent, NodeResult, Properties,
};
use crate::physical::frame::sine::{FrameSineOscExec, Sine};
use crate::physical::frame::square::{FrameSquareOscExec, Square};
use datafusion::arrow::datatypes::SchemaRef;
use std::sync::Arc;
use vstd::prelude::*;

verus! {

/// A node with all that feeds it.
#[derive(Debug)]
pub enum Plan {
    /// A node of another library, of which no more is known than its properties.
    Source(Properties),
    /// A sine oscillator.
    Sine(FrameSineOscExec),
    /// A square-wave oscillator.
    Square(FrameSquareOscExec),
    /// A gain.
    Gain(FrameGainExec),
    /// A low-pass filter.
    LowPass(FrameLowPassFilterExec),
    /// A mixer.
    Mix(FrameMixExec),
    /// The first frames of a signal.
    Limit(FrameLimit),
}

/// What a graph computes.
pub enum Graph {
    /// Whatever a node of another library does.
    Source(Properties),
    /// A sine wave.
    Sine(Sine),
    /// A square wave.
    Square(Square),
    /// A signal times a factor.
    Gain {
        /// The signal.
        input: Box<Graph>,
        /// The factor.
        factor: Single,
    },
    /// A signal without its high frequencies.
    LowPass {
        /// The signal.
        input: Box<Graph>,
        /// Where the high frequencies begin.
        cutoff_hz: Double,
        /// The logarithm of what one frame leaves of the filter's state.
        exponent: Double,
    },
    /// A weighted sum of signals.
    Mix {
        /// The signals.
        inputs: Seq<Graph>,
        /// Their weights.
        gains: Seq<Single>,
        /// How many frames a batch holds at most.
        batch_frame_capacity: usize,
    },
    /// The first frames of a signal.
    Limit {
        /// The signal.
        input: Box<Graph>,
        /// How many frames there are at most.
        frames: nat,
    },
}

impl Plan {
    /// What is known of the node before it runs.
    pub open(crate) spec fn known(self) -> Properties {
        match self {
            Plan::Source(properties) => properties,
            Plan::Sine(node) => node.properties,
            Plan::Square(node) => node.properties,
            Plan::Gain(node) => node.properties,
            Plan::LowPass(node) => node.properties,
            Plan::Mix(node) => node.properties,
            Plan::Limit(node) => node.properties,
        }
    }

    /// What the graph computes.
    pub open(crate) spec fn graph(self) -> Graph
        decreases self,
    {
        match self {
            Plan::Source(properties) => Graph::Source(properties),
            Plan::Sine(node) => Graph::Sine(node@),
            Plan::Square(node) => Graph::Square(node@),
            Plan::Gain(node) => Graph::Gain {
                input: Box::new(node.input.graph()),
                factor: node.gain,
            },
            Plan::LowPass(node) => Graph::LowPass {
                input: Box::new(node.input.graph()),
                cutoff_hz: node.cutoff_hz,
                exponent: node.exponent,
            },
            Plan::Mix(node) => Graph::Mix {
                inputs: Seq::new(
                    node.inputs@.len(),
                    |i: int|
                        if 0 <= i < node.inputs@.len() {
                            node.inputs[i].graph()
                        } else {
                            arbitrary()
                        },
                ),
                gains: node.gains@,
                batch_frame_capacity: node.batch_frame_capacity,
            },
            Plan::Limit(node) => Graph::Limit {
                input: Box::new(node.input.graph()),
                frames: node.frames as nat,
            },
        }
    }

    /// The nodes that feed this one.
    pub open(crate) spec fn inputs(self) -> Seq<Arc<Plan>> {
        match self {
            Plan::Gain(node) => seq![node.input],
            Plan::LowPass(node) => seq![node.input],
            Plan::Mix(node) => node.inputs@,
            Plan::Limit(node) => seq![node.input],
            _ => Seq::empty(),
        }
    }

    /// Whether this node and all that feed it give one stream each, of frames at this rate.
    pub open(crate) spec fn made_for(self, sample_rate_hz: u32) -> bool
        decreases self,
    {
        &&& self.known().is_frame_signal(sample_rate_hz)
        &&& self.known().partitions == 1
        &&& match self {
            Plan::Gain(node) => node.input.made_for(sample_rate_hz),
            Plan::LowPass(node) => node.input.made_for(sample_rate_hz),
            Plan::Mix(node) => forall|i: int|
                0 <= i < node.inputs@.len() ==> (#[trigger] node.inputs[i]).made_for(
                    sample_rate_hz,
                ),
            Plan::Limit(node) => node.input.made_for(sample_rate_hz),
            _ => true,
        }
    }

    /// What is known of the node before it runs.
    pub fn properties(&self) -> (r: &Properties)
        ensures
            *r == self.known(),
    {
        match self {
            Plan::Source(properties) => properties,
            Plan::Sine(node) => &node.properties,
            Plan::Square(node) => &node.properties,
            Plan::Gain(node) => &node.properties,
            Plan::LowPass(node) => &node.properties,
            Plan::Mix(node) => &node.properties,
            Plan::Limit(node) => &node.properties,
        }
    }
}

/// The graphs that feed a graph's last node.
pub open spec fn inputs_of(graph: Graph) -> Seq<Graph> {
    match graph {
        Graph::Gain { input, factor } => seq![*input],
        Graph::LowPass { input, cutoff_hz, exponent } => seq![*input],
        Graph::Mix { inputs, gains, batch_frame_capacity } => inputs,
        Graph::Limit { input, frames } => seq![*input],
        _ => Seq::empty(),
    }
}

impl Plan {
    /// The nodes that feed this one.
    pub fn children(&self) -> (r: Vec<Arc<Plan>>)
        ensures
            r@ == self.inputs(),
            graphs(r@) == inputs_of(self.graph()),
    {
        let mut r: Vec<Arc<Plan>> = Vec::new();
        match self {
            Plan::Gain(node) => {
                r.push(node.input.clone());
            },
            Plan::LowPass(node) => {
                r.push(node.input.clone());
            },
            Plan::Limit(node) => {
                r.push(node.input.clone());
            },
            Plan::Mix(node) => {
                let mut i: usize = 0;
                while i < node.inputs.len()
                    invariant
                        i <= node.inputs@.len(),
                        r@ == node.inputs@.take(i as int),
                    decreases node.inputs@.len() - i,
                {
                    r.push(node.inputs[i].clone());
                    i += 1;
                    assert(r@ =~= node.inputs@.take(i as int));
                }
                assert(r@ =~= node.inputs@);
            },
            _ => {},
        }
        assert(r@ =~= self.inputs());
        assert(graphs(r@) =~= inputs_of(self.graph()));
        r
    }
}

/// The first frames of a signal.
#[derive(Debug)]
pub struct FrameLimit {
    pub(crate) input: Arc<Plan>,
    pub(crate) frames: usize,
    pub(crate) properties: Properties,
}

impl FrameLimit {
    /// Cuts a signal off: whatever it was, it then ends.
    pub fn new(input: Arc<Plan>, frames: usize) -> (r: FrameLimit)
        ensures
            Plan::Limit(r).graph() == (Graph::Limit {
                input: Box::new(input.graph()),
                frames: frames as nat,
            }),
            Plan::Limit(r).inputs() == seq![input],
            Plan::Limit(r).known() == (Properties {
                partitions: 1,
                extent: Extent::Bounded,
                ..input.known()
            }),
    {
        let known: &Properties = input.properties();
        let properties: Properties = Properties {
            schema: known.schema.clone(),
            partitions: 1,
            emission: known.emission,
            extent: Extent::Bounded,
            frame_ordered: known.frame_ordered,
        };
        FrameLimit { input, frames, properties }
    }

    /// The signal that is cut off.
    pub fn input(&self) -> (r: &Arc<Plan>)
        ensures
            Plan::Limit(*self).inputs() == seq![*r],
    {
        &self.input
    }

    /// How many frames there are at most.
    pub fn frames(&self) -> (r: usize)
        ensures
            Plan::Limit(*self).graph() matches Graph::Limit { input, frames } && frames == r,
    {
        self.frames
    }
}

/// A graph whose rows are a frame signal. Samples have no unit and must be in [-1, 1];
/// their order, density and values are checked by the nodes that take them.
#[derive(Debug)]
pub struct FramePlan(Arc<Plan>);

impl View for FramePlan {
    type V = Plan;

    closed spec fn view(&self) -> Plan {
        *self.0
    }
}

impl Clone for FramePlan {
    fn clone(&self) -> (r: Self)
        ensures
            r@ == self@,
    {
        FramePlan(self.0.clone())
    }
}

impl FramePlan {
    /// Takes a graph whose schema is the one of the configuration.
    pub fn try_from_plan(config: &RenderConfig, plan: Arc<Plan>) -> (r: NodeResult<FramePlan>)
        ensures
            r.is_ok() == plan.known().is_frame_signal(config@.sample_rate_hz),
            r matches Ok(signal) ==> signal@ == *plan,
            r matches Err(error) ==> is_mismatch_error(error, "FramePlan expected schema "@),
    {
        let schema: SchemaRef = frame_schema(config);
        let found: &SchemaRef = &plan.properties().schema;
        if !schemas_equal(&schema, found) {
            return Err(mismatch_error("FramePlan expected schema ", &schema, found));
        }
        Ok(FramePlan(plan))
    }

    /// Gives the graph back.
    pub fn into_plan(self) -> (plan: Arc<Plan>)
        ensures
            *plan == self@,
    {
        self.0
    }
}

/// A node that gives one stream of frames is made for their rate where all that feed it
/// are.
pub proof fn lemma_made_for(plan: Plan, sample_rate_hz: u32)
    requires
        plan.known().is_frame_signal(sample_rate_hz),
        plan.known().partitions == 1,
        forall|i: int|
            0 <= i < plan.inputs().len() ==> (#[trigger] plan.inputs()[i]).made_for(sample_rate_hz),
    ensures
        plan.made_for(sample_rate_hz),
{
    match plan {
        Plan::Gain(node) => {
            assert(plan.inputs()[0].made_for(sample_rate_hz));
        },
        Plan::LowPass(node) => {
            assert(plan.inputs()[0].made_for(sample_rate_hz));
        },
        Plan::Limit(node) => {
            assert(plan.inputs()[0].made_for(sample_rate_hz));
        },
        Plan::Mix(node) => {
            assert forall|i: int| 0 <= i < node.inputs@.len() implies (
            #[trigger] node.inputs[i]).made_for(sample_rate_hz) by {
                assert(plan.inputs()[i].made_for(sample_rate_hz));
            }
        },
        _ => {},
    }
}

/// What feeds a node that is made for a rate is made for it too.
pub proof fn inputs_are_made_for_the_same_rate(plan: Plan, sample_rate_hz: u32, index: int)
    requires
        plan.made_for(sample_rate_hz),
        0 <= index < plan.inputs().len(),
    ensures
        plan.inputs()[index].made_for(sample_rate_hz),
{
}

/// A graph shows what feeds its node: the graphs of the node's inputs, in their order.
pub proof fn a_graph_shows_its_inputs(plan: Plan)
    ensures
        inputs_of(plan.graph()).len() == plan.inputs().len(),
        forall|i: int|
            0 <= i < plan.inputs().len() ==> #[trigger] inputs_of(plan.graph())[i]
                == plan.inputs()[i].graph(),
{
}

} // verus!
