//! The mixer.
pub mod cursor;
pub mod laws;

use crate::arrow::{
    batch_columns, batch_frames, batch_rows, batch_samples, frame_typed, new_batch, present,
    schema_columns, schemas_equal, types_known, FrameBatch,
};
use crate::config::RenderConfig;
use crate::ieee::number::Single;
use crate::layout::frame_schema;
use crate::physical::frame::mix::cursor::{
    aligned, all_advanced, all_past, all_wf, any_needs_load, least_frame, lemma_least_frame,
    loading_keeps_the_order, merge_ends_with_its_last_input, merge_fault, merged_frames_increase,
    taking_a_frame_passes_it, FrameMergeCursor, Walk,
};
use crate::physical::frame::mix::laws::{
    all_orderly, every_row_is_the_mix_at_its_frame, is_mix_at,
};
use crate::physical::frame::node::{
    batch_matches, check_partition, execution_error, frame_model, is_mismatch_error,
    mismatch_error, partition_fault, plan_error, schema_model, Emission, Extent, NodeError,
    NodeResult, Properties, SchemaModel,
};
use crate::physical::frame::plan::{Graph, Plan};
use crate::text::{decimal, decimal_text};
use datafusion::arrow::datatypes::SchemaRef;
use std::sync::Arc;
use vstd::prelude::*;

verus! {

/// Mixes matching frames from all inputs. An input that ends contributes silence;
/// output ends only after every input has ended.
///
/// Mixing does not clip samples. Apply a gain after mixing to keep the rendered signal
/// in [-1, 1].
#[derive(Debug)]
pub struct FrameMixExec {
    pub(crate) inputs: Vec<Arc<Plan>>,
    pub(crate) gains: Vec<Single>,
    pub(crate) batch_frame_capacity: usize,
    pub(crate) properties: Properties,
}

/// When the mix of some inputs hands out its rows: as late as the latest of them.
pub open spec fn mixed_emission(inputs: Seq<Arc<Plan>>) -> Emission {
    if exists|i: int|
        0 <= i < inputs.len() && (#[trigger] inputs[i]).known().emission == Emission::Final {
        Emission::Final
    } else if exists|i: int|
        0 <= i < inputs.len() && (#[trigger] inputs[i]).known().emission == Emission::Both {
        Emission::Both
    } else {
        Emission::Incremental
    }
}

/// Whether some input has this extent.
pub open spec fn some_extent(inputs: Seq<Arc<Plan>>, extent: Extent) -> bool {
    exists|i: int| 0 <= i < inputs.len() && (#[trigger] inputs[i]).known().extent == extent
}

/// Whether the mix of some inputs ever ends: it goes on as long as any of them, and
/// takes as much memory as the worst.
pub open spec fn mixed_extent(inputs: Seq<Arc<Plan>>) -> Extent {
    if some_extent(inputs, Extent::Unbounded { requires_infinite_memory: true }) {
        Extent::Unbounded { requires_infinite_memory: true }
    } else if some_extent(inputs, Extent::Unbounded { requires_infinite_memory: false }) {
        Extent::Unbounded { requires_infinite_memory: false }
    } else {
        Extent::Bounded
    }
}

/// Derives when a mix hands out its rows.
pub fn emission_type_from_inputs(inputs: &Vec<Arc<Plan>>) -> (r: Emission)
    ensures
        r == mixed_emission(inputs@),
{
    let mut both: bool = false;
    let mut i: usize = 0;
    while i < inputs.len()
        invariant
            i <= inputs@.len(),
            forall|j: int|
                0 <= j < i ==> (#[trigger] inputs@[j]).known().emission != Emission::Final,
            both == exists|j: int|
                0 <= j < i && (#[trigger] inputs@[j]).known().emission == Emission::Both,
        decreases inputs@.len() - i,
    {
        match inputs[i].properties().emission {
            Emission::Final => {
                assert(inputs@[i as int].known().emission == Emission::Final);
                return Emission::Final;
            },
            Emission::Both => {
                both = true;
                assert(inputs@[i as int].known().emission == Emission::Both);
            },
            Emission::Incremental => {},
        }
        i += 1;
    }
    if both {
        Emission::Both
    } else {
        Emission::Incremental
    }
}

/// Derives whether a mix ever ends.
pub fn boundedness_from_inputs(inputs: &Vec<Arc<Plan>>) -> (r: Extent)
    ensures
        r == mixed_extent(inputs@),
{
    let mut extent: Extent = Extent::Bounded;
    let mut i: usize = 0;
    assert(inputs@.take(0).len() == 0);
    while i < inputs.len()
        invariant
            i <= inputs@.len(),
            extent == mixed_extent(inputs@.take(i as int)),
        decreases inputs@.len() - i,
    {
        let next: Extent = inputs[i].properties().extent;
        let ghost before = inputs@.take(i as int);
        let ghost after = inputs@.take(i + 1);
        proof {
            assert(after[i as int].known().extent == next);
            assert forall|e: Extent| #[trigger] some_extent(after, e) == (some_extent(before, e)
                || e == next) by {
                if some_extent(before, e) {
                    let j = choose|j: int|
                        0 <= j < before.len() && (#[trigger] before[j]).known().extent == e;
                    assert(after[j].known().extent == e);
                }
                if some_extent(after, e) {
                    let j = choose|j: int|
                        0 <= j < after.len() && (#[trigger] after[j]).known().extent == e;
                    if j < i {
                        assert(before[j].known().extent == e);
                    }
                }
            }
        }
        extent = match next {
            Extent::Bounded => extent,
            Extent::Unbounded { requires_infinite_memory } => if requires_infinite_memory {
                next
            } else {
                match extent {
                    Extent::Bounded => next,
                    Extent::Unbounded { requires_infinite_memory: _ } => extent,
                }
            },
        };
        i += 1;
    }
    assert(inputs@.take(i as int) =~= inputs@);
    extent
}

/// Whether this gain is the first that is no number.
pub open spec fn first_infinite(gains: Seq<Single>, index: int) -> bool {
    &&& 0 <= index < gains.len()
    &&& !gains[index].finite()
    &&& forall|j: int| 0 <= j < index ==> (#[trigger] gains[j]).finite()
}

/// Whether an input can be mixed: it has the mix's schema and one stream.
pub open spec fn mixable(input: Plan, schema: SchemaModel) -> bool {
    schema_model(*input.known().schema) == schema && input.known().partitions == 1
}

/// Whether this input is the first that cannot be mixed.
pub open spec fn first_unmixable(inputs: Seq<Arc<Plan>>, schema: SchemaModel, index: int) -> bool {
    &&& 0 <= index < inputs.len()
    &&& !mixable(*inputs[index], schema)
    &&& forall|j: int| 0 <= j < index ==> mixable(*#[trigger] inputs[j], schema)
}

/// Whether inputs and gains can be mixed.
pub open spec fn mix_accepted(
    inputs: Seq<Arc<Plan>>,
    gains: Seq<Single>,
    schema: SchemaModel,
) -> bool {
    &&& inputs.len() == gains.len()
    &&& forall|i: int| 0 <= i < gains.len() ==> (#[trigger] gains[i]).finite()
    &&& forall|i: int| 0 <= i < inputs.len() ==> mixable(*#[trigger] inputs[i], schema)
}

/// Whether this is why inputs and gains cannot be mixed.
pub open spec fn mix_refused(
    inputs: Seq<Arc<Plan>>,
    gains: Seq<Single>,
    schema: SchemaModel,
    error: NodeError,
) -> bool {
    if inputs.len() != gains.len() {
        plan_error(
            error,
            "FrameMixExec requires same number of inputs as gains: "@ + decimal(inputs.len())
                + " != "@ + decimal(gains.len()),
        )
    } else if exists|i: int| first_infinite(gains, i) {
        exists|i: int| #[trigger]
            first_infinite(gains, i) && plan_error(
                error,
                "FrameMixExec gain at input "@ + decimal(i as nat) + " must be finite"@,
            )
    } else {
        exists|i: int| #[trigger]
            first_unmixable(inputs, schema, i) && if schema_model(*inputs[i].known().schema)
                == schema {
                plan_error(error, "FrameMixExec requires each input to have one partition"@)
            } else {
                is_mismatch_error(error, "FrameMixExec expected input schema to be "@)
            }
    }
}

/// The graphs of some nodes.
pub open spec fn graphs(inputs: Seq<Arc<Plan>>) -> Seq<Graph> {
    inputs.map_values(|input: Arc<Plan>| input.graph())
}

impl FrameMixExec {
    /// The schema holds frames and samples, and every input has a gain, which is a number.
    #[verifier::type_invariant]
    pub(crate) open(crate) spec fn wf(self) -> bool {
        &&& frame_typed(schema_columns(*self.properties.schema))
        &&& self.inputs@.len() == self.gains@.len()
        &&& forall|i: int| 0 <= i < self.gains@.len() ==> (#[trigger] self.gains@[i]).finite()
    }

    /// The mix of some inputs.
    pub open(crate) spec fn is_mix_of(
        self,
        inputs: Seq<Arc<Plan>>,
        gains: Seq<Single>,
        schema: SchemaModel,
        capacity: usize,
    ) -> bool {
        &&& Plan::Mix(self).graph() == (Graph::Mix {
            inputs: graphs(inputs),
            gains,
            batch_frame_capacity: capacity,
        })
        &&& Plan::Mix(self).inputs() == inputs
        &&& schema_model(*Plan::Mix(self).known().schema) == schema
        &&& Plan::Mix(self).known().partitions == 1
        &&& Plan::Mix(self).known().emission == mixed_emission(inputs)
        &&& Plan::Mix(self).known().extent == mixed_extent(inputs)
        &&& Plan::Mix(self).known().frame_ordered
    }

    /// Mixes frame signals, each with its gain.
    pub fn try_new(config: &RenderConfig, inputs: Vec<Arc<Plan>>, gains: Vec<Single>) -> (r:
        NodeResult<FrameMixExec>)
        ensures
            r.is_ok() == mix_accepted(inputs@, gains@, frame_model(config@.sample_rate_hz)),
            r matches Ok(node) ==> node.is_mix_of(
                inputs@,
                gains@,
                frame_model(config@.sample_rate_hz),
                config@.batch_frame_capacity,
            ),
            r matches Err(error) ==> mix_refused(
                inputs@,
                gains@,
                frame_model(config@.sample_rate_hz),
                error,
            ),
    {
        let schema: SchemaRef = frame_schema(config);
        FrameMixExec::try_new_with_schema(inputs, gains, schema, config.batch_frame_capacity())
    }

    /// Mixes signals with this schema, each with its gain.
    fn try_new_with_schema(
        inputs: Vec<Arc<Plan>>,
        gains: Vec<Single>,
        schema: SchemaRef,
        batch_frame_capacity: usize,
    ) -> (r: NodeResult<FrameMixExec>)
        requires
            frame_typed(schema_columns(*schema)),
        ensures
            r.is_ok() == mix_accepted(inputs@, gains@, schema_model(*schema)),
            r matches Ok(node) ==> node.is_mix_of(
                inputs@,
                gains@,
                schema_model(*schema),
                batch_frame_capacity,
            ),
            r matches Err(error) ==> mix_refused(inputs@, gains@, schema_model(*schema), error),
    {
        if inputs.len() != gains.len() {
            return Err(
                NodeError::Plan(
                    "FrameMixExec requires same number of inputs as gains: ".to_owned().concat(
                        decimal_text(inputs.len() as u64).as_str(),
                    ).concat(" != ").concat(decimal_text(gains.len() as u64).as_str()),
                ),
            );
        }
        let mut index: usize = 0;
        while index < gains.len()
            invariant
                index <= gains@.len(),
                inputs@.len() == gains@.len(),
                forall|j: int| 0 <= j < index ==> (#[trigger] gains@[j]).finite(),
            decreases gains@.len() - index,
        {
            if !gains[index].is_finite() {
                assert(first_infinite(gains@, index as int));
                return Err(
                    NodeError::Plan(
                        "FrameMixExec gain at input ".to_owned().concat(
                            decimal_text(index as u64).as_str(),
                        ).concat(" must be finite"),
                    ),
                );
            }
            index += 1;
        }
        let mut next: usize = 0;
        while next < inputs.len()
            invariant
                next <= inputs@.len(),
                inputs@.len() == gains@.len(),
                frame_typed(schema_columns(*schema)),
                forall|j: int| 0 <= j < gains@.len() ==> (#[trigger] gains@[j]).finite(),
                forall|j: int|
                    0 <= j < next ==> mixable(*#[trigger] inputs@[j], schema_model(*schema)),
            decreases inputs@.len() - next,
        {
            let known: &Properties = inputs[next].properties();
            assert(types_known(schema_columns(*schema)));
            if !schemas_equal(&schema, &known.schema) {
                assert(first_unmixable(inputs@, schema_model(*schema), next as int));
                return Err(
                    mismatch_error(
                        "FrameMixExec expected input schema to be ",
                        &schema,
                        &known.schema,
                    ),
                );
            }
            if known.partitions != 1 {
                assert(first_unmixable(inputs@, schema_model(*schema), next as int));
                return Err(
                    NodeError::Plan(
                        "FrameMixExec requires each input to have one partition".to_owned(),
                    ),
                );
            }
            next += 1;
        }
        let properties: Properties = Properties {
            schema,
            partitions: 1,
            emission: emission_type_from_inputs(&inputs),
            extent: boundedness_from_inputs(&inputs),
            frame_ordered: true,
        };
        let node: FrameMixExec = FrameMixExec { inputs, gains, batch_frame_capacity, properties };
        proof {
            let shown = Plan::Mix(node).graph()->Mix_inputs;
            assert(shown =~= graphs(node.inputs@));
        }
        Ok(node)
    }

    /// The node's name.
    pub fn name(&self) -> (name: &str)
        ensures
            name@ == "FrameMixExec"@,
    {
        "FrameMixExec"
    }

    /// The signals that are mixed.
    pub fn inputs(&self) -> (r: &Vec<Arc<Plan>>)
        ensures
            Plan::Mix(*self).inputs() == r@,
    {
        &self.inputs
    }

    /// Their gains.
    pub fn gains(&self) -> (r: &Vec<Single>)
        ensures
            Plan::Mix(*self).graph() matches Graph::Mix { inputs, gains, batch_frame_capacity }
                && gains == r@,
            forall|i: int| 0 <= i < r@.len() ==> (#[trigger] r@[i]).finite(),
    {
        proof {
            use_type_invariant(self);
        }
        &self.gains
    }

    /// How many frames a batch holds at most.
    pub fn batch_frame_capacity(&self) -> (r: usize)
        ensures
            Plan::Mix(*self).graph() matches Graph::Mix { inputs, gains, batch_frame_capacity }
                && batch_frame_capacity == r,
    {
        self.batch_frame_capacity
    }

    /// Mixes other signals with the same gains.
    pub fn with_new_children(&self, children: Vec<Arc<Plan>>) -> (r: NodeResult<FrameMixExec>)
        ensures
            ({
                let schema = schema_model(*Plan::Mix(*self).known().schema);
                &&& Plan::Mix(*self).graph() matches Graph::Mix {
                    inputs,
                    gains,
                    batch_frame_capacity,
                } && {
                    &&& r.is_ok() == mix_accepted(children@, gains, schema)
                    &&& r.is_ok() == (children@.len() == inputs.len() && forall|i: int|
                        0 <= i < children@.len() ==> mixable(*#[trigger] children@[i], schema))
                    &&& r matches Ok(node) ==> node.is_mix_of(
                        children@,
                        gains,
                        schema,
                        batch_frame_capacity,
                    )
                    &&& r matches Err(error) ==> mix_refused(children@, gains, schema, error)
                }
            }),
    {
        proof {
            use_type_invariant(self);
        }
        let schema: SchemaRef = self.properties.schema.clone();
        let capacity: usize = self.batch_frame_capacity;
        FrameMixExec::try_new_with_schema(children, copy_gains(&self.gains), schema, capacity)
    }

    /// Starts the mixer's only stream.
    pub fn execute(&self, partition: usize) -> (r: NodeResult<MixRun>)
        ensures
            r.is_ok() == (partition == 0),
            r matches Ok(run) ==> {
                &&& run.known() == Plan::Mix(*self).known()
                &&& Plan::Mix(*self).graph() matches Graph::Mix {
                    inputs,
                    gains,
                    batch_frame_capacity,
                } && run@ == (Mixing {
                    inputs: Seq::new(inputs.len(), |i: int| Walk::start()),
                    gains,
                    capacity: batch_frame_capacity,
                    frames: Seq::empty(),
                    samples: Seq::empty(),
                })
            },
            r matches Err(error) ==> partition_fault("FrameMixExec"@, partition) matches Some(
                reason,
            ) && execution_error(error, reason),
    {
        proof {
            use_type_invariant(self);
        }
        check_partition("FrameMixExec", partition)?;
        let run: MixRun = MixRun {
            properties: self.properties.duplicate(),
            cursor: FrameMergeCursor::new(self.inputs.len()),
            gains: copy_gains(&self.gains),
            capacity: self.batch_frame_capacity,
            rows: Vec::new(),
        };
        assert(run@.frames =~= Seq::empty());
        assert(run@.samples =~= Seq::empty());
        Ok(run)
    }
}

/// A list of its own with the same gains.
fn copy_gains(gains: &Vec<Single>) -> (r: Vec<Single>)
    ensures
        r@ == gains@,
{
    let mut r: Vec<Single> = Vec::new();
    let mut i: usize = 0;
    while i < gains.len()
        invariant
            i <= gains@.len(),
            r@ == gains@.take(i as int),
        decreases gains@.len() - i,
    {
        r.push(gains[i]);
        i += 1;
        assert(r@ =~= gains@.take(i as int));
    }
    assert(r@ =~= gains@);
    r
}

/// The weighted sum of the first `count` samples; a missing one is silence.
pub open spec fn mixed(samples: Seq<Option<Single>>, gains: Seq<Single>, count: nat) -> Single
    decreases count,
{
    if count == 0 {
        Single { bits: 0x8000_0000 }
    } else {
        let sample = match samples[count - 1] {
            Some(sample) => sample,
            None => Single { bits: 0 },
        };
        mixed(samples, gains, (count - 1) as nat).sum_spec(sample.product_spec(gains[count - 1]))
    }
}

/// How many samples have a gain.
pub open spec fn paired(samples: Seq<Option<Single>>, gains: Seq<Single>) -> nat {
    if samples.len() < gains.len() {
        samples.len()
    } else {
        gains.len()
    }
}

/// Mixes the samples of all inputs at one frame according to their gains, without
/// clipping.
pub fn mix(samples: &Vec<Option<Single>>, gains: &Vec<Single>) -> (r: Single)
    ensures
        r == mixed(samples@, gains@, paired(samples@, gains@)),
{
    let mut total: Single = Single { bits: 0x8000_0000 };
    let mut i: usize = 0;
    while i < gains.len() && i < samples.len()
        invariant
            i <= gains@.len(),
            i <= samples@.len(),
            total == mixed(samples@, gains@, i as nat),
        decreases gains@.len() - i,
    {
        let sample: Single = match samples[i] {
            Some(sample) => sample,
            None => Single { bits: 0 },
        };
        total = total.plus(sample.times(gains[i]));
        i += 1;
    }
    total
}

/// Where a mixer stands.
#[verifier::ext_equal]
pub struct Mixing {
    /// Where it stands in each input.
    pub inputs: Seq<Walk>,
    /// The gains of the inputs.
    pub gains: Seq<Single>,
    /// How many frames a batch holds at most.
    pub capacity: usize,
    /// The frames of the batch at hand.
    pub frames: Seq<u64>,
    /// The samples of the batch at hand.
    pub samples: Seq<Single>,
}

/// Why a mixer stops.
pub enum Pause {
    /// The batch is full.
    Full,
    /// Some input has to be asked for more.
    Load,
    /// Every input has ended.
    End,
    /// An input is faulty.
    Fault(Seq<char>),
}

impl Mixing {
    /// One frame further.
    pub open spec fn stepped(self, frame: u64) -> Mixing {
        Mixing {
            inputs: all_advanced(self.inputs, frame),
            frames: self.frames.push(frame),
            samples: self.samples.push(
                mixed(aligned(self.inputs, frame), self.gains, self.gains.len()),
            ),
            ..self
        }
    }

    /// Why the mixer stops here, if it does.
    pub open spec fn pause(self) -> Option<Pause> {
        if self.frames.len() >= self.capacity {
            Some(Pause::Full)
        } else if any_needs_load(self.inputs) {
            Some(Pause::Load)
        } else if merge_fault(self.inputs, 0).is_some() {
            Some(Pause::Fault(merge_fault(self.inputs, 0).unwrap()))
        } else if least_frame(self.inputs, self.inputs.len()).is_none() {
            Some(Pause::End)
        } else {
            None
        }
    }

    /// The frame that comes next.
    pub open spec fn next_frame(self) -> u64 {
        least_frame(self.inputs, self.inputs.len()).unwrap()
    }

    /// Where the mixer stops when it goes on from here.
    pub open spec fn rest(self) -> Mixing
        decreases self.capacity - self.frames.len(),
    {
        if self.pause().is_some() {
            self
        } else {
            self.stepped(self.next_frame()).rest()
        }
    }

    /// Nothing in the batch at hand.
    pub open spec fn emptied(self) -> Mixing {
        Mixing { frames: Seq::empty(), samples: Seq::empty(), ..self }
    }

    /// The batch at hand goes on in order behind `last`, and so will what follows.
    pub open spec fn in_order(self, last: Option<u64>) -> bool {
        &&& all_wf(self.inputs)
        &&& forall|i: int, j: int|
            0 <= i < j < self.frames.len() ==> self.frames[i] < self.frames[j]
        &&& last matches Some(last) ==> forall|i: int|
            0 <= i < self.frames.len() ==> last < #[trigger] self.frames[i]
        &&& self.frames.len() > 0 ==> all_past(self.inputs, self.frames.last())
        &&& self.frames.len() == 0 ==> (last matches Some(last) ==> all_past(self.inputs, last))
    }
}

/// The frames of some rows.
pub open spec fn row_frames(rows: Seq<(u64, Single)>) -> Seq<u64> {
    rows.map_values(|row: (u64, Single)| row.0)
}

/// The samples of some rows.
pub open spec fn row_samples(rows: Seq<(u64, Single)>) -> Seq<Single> {
    rows.map_values(|row: (u64, Single)| row.1)
}

/// A stream of a mixer.
pub struct MixRun {
    properties: Properties,
    cursor: FrameMergeCursor,
    gains: Vec<Single>,
    capacity: usize,
    rows: Vec<(u64, Single)>,
}

impl View for MixRun {
    type V = Mixing;

    closed spec fn view(&self) -> Mixing {
        Mixing {
            inputs: self.cursor@,
            gains: self.gains@,
            capacity: self.capacity,
            frames: row_frames(self.rows@),
            samples: row_samples(self.rows@),
        }
    }
}

/// What a mixer wants next.
pub enum MixAction {
    /// Every input that has to be asked for more is to be asked.
    Load,
    /// A batch is to be handed out.
    Emit(FrameBatch),
    /// The mix is over.
    Done,
}

impl MixRun {
    /// The schema holds frames and samples, and every input has a gain.
    #[verifier::type_invariant]
    spec fn wf(self) -> bool {
        &&& frame_typed(schema_columns(*self.properties.schema))
        &&& self.gains@.len() == self.cursor@.len()
    }

    /// What is known of the mixer.
    pub closed spec fn known(self) -> Properties {
        self.properties
    }

    /// How many inputs there are.
    pub fn input_count(&self) -> (r: usize)
        ensures
            r == self@.inputs.len(),
    {
        self.cursor.input_count()
    }

    /// Whether an input has to be asked for more.
    pub fn input_needs_load(&self, index: usize) -> (r: bool)
        requires
            index < self@.inputs.len(),
        ensures
            r == self@.inputs[index as int].needs_load(),
    {
        self.cursor.input_needs_load(index)
    }

    /// Takes the next batch of an input.
    pub fn load(&mut self, index: usize, batch: &FrameBatch)
        requires
            index < old(self)@.inputs.len(),
            batch_rows(*batch) > 0 ==> batch_columns(*batch).len() >= 2,
        ensures
            final(self).known() == old(self).known(),
            final(self)@ == (Mixing {
                inputs: old(self)@.inputs.update(
                    index as int,
                    old(self)@.inputs[index as int].loaded(*batch),
                ),
                ..old(self)@
            }),
    {
        proof {
            use_type_invariant(&*self);
        }
        let mut cursor: FrameMergeCursor = FrameMergeCursor::new(self.cursor.input_count());
        std::mem::swap(&mut cursor, &mut self.cursor);
        cursor.load(index, batch);
        std::mem::swap(&mut cursor, &mut self.cursor);
    }

    /// Takes the end of an input.
    pub fn end(&mut self, index: usize)
        requires
            index < old(self)@.inputs.len(),
        ensures
            final(self).known() == old(self).known(),
            final(self)@ == (Mixing {
                inputs: old(self)@.inputs.update(
                    index as int,
                    old(self)@.inputs[index as int].ended(),
                ),
                ..old(self)@
            }),
    {
        proof {
            use_type_invariant(&*self);
        }
        let mut cursor: FrameMergeCursor = FrameMergeCursor::new(self.cursor.input_count());
        std::mem::swap(&mut cursor, &mut self.cursor);
        cursor.end(index);
        std::mem::swap(&mut cursor, &mut self.cursor);
    }

    /// Mixes frame after frame until a batch is full, an input has to be asked for more,
    /// or every input has ended.
    pub fn advance(&mut self) -> (r: NodeResult<MixAction>)
        ensures
            final(self).known() == old(self).known(),
            ({
                let rest = old(self)@.rest();
                match rest.pause() {
                    Some(Pause::Load) => r matches Ok(MixAction::Load) && final(self)@ == rest,
                    Some(Pause::Fault(reason)) => (r matches Err(error) && execution_error(
                        error,
                        reason,
                    )) && final(self)@ == rest,
                    _ => if rest.frames.len() == 0 {
                        r matches Ok(MixAction::Done) && final(self)@ == rest
                    } else {
                        &&& r matches Ok(MixAction::Emit(batch)) && {
                            &&& batch_matches(batch, old(self).known())
                            &&& batch_rows(batch) == rest.frames.len()
                            &&& batch_frames(batch) == present(rest.frames)
                            &&& batch_samples(batch) == present(rest.samples)
                        }
                        &&& final(self)@ == rest.emptied()
                    },
                }
            }),
            r matches Ok(MixAction::Emit(batch)) ==> all_orderly(old(self)@.inputs)
                && old(self)@.frames.len() == 0 ==> forall|row: int|
                0 <= row < batch_rows(batch) ==> (#[trigger] batch_frames(batch)[row]).is_some()
                    && batch_samples(batch)[row].is_some() && is_mix_at(
                    old(self)@.inputs,
                    old(self)@.gains,
                    batch_frames(batch)[row].unwrap(),
                    batch_samples(batch)[row].unwrap(),
                ),
    {
        let ghost start = self@;
        let ghost known = self.known();
        proof {
            use_type_invariant(&*self);
            if all_orderly(start.inputs) {
                every_row_is_the_mix_at_its_frame(start);
            }
        }
        while self.rows.len() < self.capacity
            invariant
                self@.rest() == start.rest(),
                start == old(self)@,
                known == old(self).known(),
                self.known() == known,
                start.frames.len() == start.samples.len(),
                all_orderly(start.inputs) ==> forall|j: int|
                    start.frames.len() <= j < start.rest().frames.len() ==> is_mix_at(
                        start.inputs,
                        start.gains,
                        #[trigger] start.rest().frames[j],
                        start.rest().samples[j],
                    ),
                all_orderly(start.inputs) ==> start.rest().frames.len()
                    == start.rest().samples.len(),
            ensures
                self@.pause() == Some(Pause::Full) || self@.pause() == Some(Pause::End),
            decreases self.capacity - self.rows@.len(),
        {
            proof {
                use_type_invariant(&*self);
            }
            let ghost before = self@;
            if self.cursor.needs_load() {
                assert(self@.pause() == Some(Pause::Load));
                return Ok(MixAction::Load);
            }
            let mut cursor: FrameMergeCursor = FrameMergeCursor::new(self.cursor.input_count());
            std::mem::swap(&mut cursor, &mut self.cursor);
            let step: NodeResult<Option<(u64, Vec<Option<Single>>)>> = cursor.next_frame();
            std::mem::swap(&mut cursor, &mut self.cursor);
            match step {
                Err(error) => {
                    return Err(error);
                },
                Ok(None) => {
                    assert(self@.pause() == Some(Pause::End));
                    break;
                },
                Ok(Some((frame, aligned_samples))) => {
                    let sample: Single = mix(&aligned_samples, &self.gains);
                    let mut rows: Vec<(u64, Single)> = Vec::new();
                    std::mem::swap(&mut rows, &mut self.rows);
                    rows.push((frame, sample));
                    std::mem::swap(&mut rows, &mut self.rows);
                    assert(before.pause().is_none());
                    assert(self@.frames =~= before.frames.push(frame));
                    assert(self@.samples =~= before.samples.push(sample));
                    assert(self@ == before.stepped(frame));
                },
            }
        }
        let ghost rest = start.rest();
        let handed: NodeResult<MixAction> = self.hand_out();
        proof {
            if all_orderly(start.inputs) && start.frames.len() == 0 {
                if handed is Ok && handed->Ok_0 is Emit {
                    let batch = handed->Ok_0->Emit_0;
                    assert forall|row: int| 0 <= row < batch_rows(batch) implies (
                    #[trigger] batch_frames(batch)[row]).is_some()
                        && batch_samples(batch)[row].is_some() && is_mix_at(
                        start.inputs,
                        start.gains,
                        batch_frames(batch)[row].unwrap(),
                        batch_samples(batch)[row].unwrap(),
                    ) by {
                        assert(batch_frames(batch)[row] == Some(rest.frames[row]));
                        assert(batch_samples(batch)[row] == Some(rest.samples[row]));
                    }
                }
            }
        }
        handed
    }

    /// Hands out the batch at hand.
    fn hand_out(&mut self) -> (r: NodeResult<MixAction>)
        ensures
            final(self).known() == old(self).known(),
            old(self)@.frames.len() == 0 ==> (r matches Ok(MixAction::Done)) && final(self)@
                == old(self)@,
            old(self)@.frames.len() > 0 ==> {
                &&& r matches Ok(MixAction::Emit(batch)) && {
                    &&& batch_matches(batch, old(self).known())
                    &&& batch_rows(batch) == old(self)@.frames.len()
                    &&& batch_frames(batch) == present(old(self)@.frames)
                    &&& batch_samples(batch) == present(old(self)@.samples)
                }
                &&& final(self)@ == old(self)@.emptied()
            },
    {
        proof {
            use_type_invariant(&*self);
        }
        if self.rows.len() == 0 {
            return Ok(MixAction::Done);
        }
        let mut rows: Vec<(u64, Single)> = Vec::new();
        std::mem::swap(&mut rows, &mut self.rows);
        assert(self@.frames =~= Seq::empty());
        assert(self@.samples =~= Seq::empty());
        let mut frames: Vec<u64> = Vec::new();
        let mut samples: Vec<Single> = Vec::new();
        let mut i: usize = 0;
        while i < rows.len()
            invariant
                i <= rows@.len(),
                frames@ == row_frames(rows@.take(i as int)),
                samples@ == row_samples(rows@.take(i as int)),
            decreases rows@.len() - i,
        {
            frames.push(rows[i].0);
            samples.push(rows[i].1);
            i += 1;
            assert(frames@ =~= row_frames(rows@.take(i as int)));
            assert(samples@ =~= row_samples(rows@.take(i as int)));
        }
        assert(rows@.take(i as int) =~= rows@);
        match new_batch(self.properties.schema.clone(), frames, samples) {
            Ok(batch) => Ok(MixAction::Emit(batch)),
            Err(error) => Err(NodeError::Arrow(error)),
        }
    }
}

/// A mixer starts in order.
pub proof fn a_new_mix_is_in_order(inputs: nat, gains: Seq<Single>, capacity: usize)
    ensures
        (Mixing {
            inputs: Seq::new(inputs, |i: int| Walk::start()),
            gains,
            capacity,
            frames: Seq::empty(),
            samples: Seq::empty(),
        }).in_order(None),
{
}

/// The frames that a mixer hands out increase, within a batch and from one to the next:
/// going on keeps the order.
pub proof fn mixed_frames_increase(run: Mixing, last: Option<u64>)
    requires
        run.in_order(last),
    ensures
        run.rest().in_order(last),
    decreases run.capacity - run.frames.len(),
{
    if run.pause().is_none() {
        let frame = run.next_frame();
        let next = run.stepped(frame);
        taking_a_frame_passes_it(run.inputs, frame);
        if run.frames.len() > 0 {
            merged_frames_increase(run.inputs, run.frames.last());
        } else if last.is_some() {
            merged_frames_increase(run.inputs, last.unwrap());
        }
        assert(next.frames.last() == frame);
        assert forall|i: int, j: int| 0 <= i < j < next.frames.len() implies next.frames[i]
            < next.frames[j] by {
            if j == run.frames.len() {
                if i < run.frames.len() - 1 {
                    assert(run.frames[i] < run.frames[run.frames.len() - 1]);
                }
            }
        }
        if last.is_some() {
            assert forall|i: int| 0 <= i < next.frames.len() implies last.unwrap()
                < #[trigger] next.frames[i] by {
                if i == run.frames.len() && run.frames.len() > 0 {
                    assert(last.unwrap() < run.frames[run.frames.len() - 1]);
                }
            }
        }
        mixed_frames_increase(next, last);
    }
}

/// Once a batch is handed out, what follows goes on behind its last frame.
pub proof fn batches_follow_each_other(run: Mixing, last: Option<u64>)
    requires
        run.in_order(last),
        run.frames.len() > 0,
    ensures
        run.emptied().in_order(Some(run.frames.last())),
{
}

/// Asking an input for more keeps the order.
pub proof fn loading_keeps_a_mix_in_order(
    run: Mixing,
    last: Option<u64>,
    index: int,
    batch: FrameBatch,
)
    requires
        run.in_order(last),
        0 <= index < run.inputs.len(),
        run.inputs[index].needs_load(),
        run.inputs[index].loaded(batch).wf(),
    ensures
        (Mixing {
            inputs: run.inputs.update(index, run.inputs[index].loaded(batch)),
            ..run
        }).in_order(last),
        (Mixing { inputs: run.inputs.update(index, run.inputs[index].ended()), ..run }).in_order(
            last,
        ),
{
    let input = run.inputs[index];
    if run.frames.len() > 0 {
        loading_keeps_the_order(input, batch, run.frames.last());
    } else if last.is_some() {
        loading_keeps_the_order(input, batch, last.unwrap());
    }
}

/// Whether a row of an input holds this frame.
pub open spec fn row_has_frame(input: Walk, row: nat, frame: u64) -> bool {
    input.frames matches Some(frames) && row < frames.len() && frames[row as int] == Some(frame)
}

/// Whether the frame of a row is among those from `from` on.
pub open spec fn row_is_in(input: Walk, row: nat, frames: Seq<u64>, from: nat) -> bool {
    exists|j: int| from <= j < frames.len() && row_has_frame(input, row, #[trigger] frames[j])
}

/// Whether a frame is that of a row that was taken from some input on the way.
pub open spec fn frame_was_taken(before: Seq<Walk>, after: Seq<Walk>, frame: u64) -> bool {
    exists|i: int, row: nat|
        0 <= i < before.len() && before[i].row <= row < after[i].row && #[trigger] row_has_frame(
            before[i],
            row,
            frame,
        )
}

/// What a mixer does to its inputs and its batch on the way from one state to another.
pub open spec fn takes_every_frame(before: Mixing, after: Mixing) -> bool {
    &&& after.inputs.len() == before.inputs.len()
    &&& before.frames.is_prefix_of(after.frames)
    &&& forall|i: int|
        0 <= i < before.inputs.len() ==> {
            &&& (#[trigger] after.inputs[i]).row >= before.inputs[i].row
            &&& after.inputs[i].rows == before.inputs[i].rows
            &&& after.inputs[i].frames == before.inputs[i].frames
            &&& after.inputs[i].samples == before.inputs[i].samples
            &&& after.inputs[i].finished == before.inputs[i].finished
        }
    &&& forall|i: int, row: nat|
        0 <= i < before.inputs.len() && before.inputs[i].row <= row < after.inputs[i].row
            ==> #[trigger] row_is_in(before.inputs[i], row, after.frames, before.frames.len())
    &&& forall|j: int|
        before.frames.len() <= j < after.frames.len() ==> frame_was_taken(
            before.inputs,
            after.inputs,
            #[trigger] after.frames[j],
        )
}

/// One step takes a row of every input that is at the least frame, and hands out that
/// frame.
proof fn lemma_step_takes(run: Mixing)
    requires
        run.pause().is_none(),
        all_wf(run.inputs),
    ensures
        takes_every_frame(run, run.stepped(run.next_frame())),
{
    let frame = run.next_frame();
    let next = run.stepped(frame);
    lemma_least_frame(run.inputs, run.inputs.len());
    assert(run.frames =~= next.frames.take(run.frames.len() as int));
    assert forall|i: int, row: nat|
        0 <= i < run.inputs.len() && run.inputs[i].row <= row
            < next.inputs[i].row implies #[trigger] row_is_in(
        run.inputs[i],
        row,
        next.frames,
        run.frames.len(),
    ) by {
        assert(run.inputs[i].wf());
        assert(run.inputs[i].sample_at(frame).is_some());
        assert(row == run.inputs[i].row);
        assert(row_has_frame(run.inputs[i], row, next.frames[run.frames.len() as int]));
    }
    let i = choose|i: int|
        0 <= i < run.inputs.len() && (#[trigger] run.inputs[i]).sample_at(frame).is_some();
    assert(run.inputs[i].wf());
    assert(row_has_frame(run.inputs[i], run.inputs[i].row, frame));
    assert forall|j: int| run.frames.len() <= j < next.frames.len() implies frame_was_taken(
        run.inputs,
        next.inputs,
        #[trigger] next.frames[j],
    ) by {
        assert(next.frames[j] == frame);
        assert(next.inputs[i] == run.inputs[i].advanced(frame));
    }
}

/// Going on from where one went on takes every frame of both ways.
proof fn lemma_takes_on(one: Mixing, two: Mixing, three: Mixing)
    requires
        takes_every_frame(one, two),
        takes_every_frame(two, three),
    ensures
        takes_every_frame(one, three),
{
    assert(one.frames =~= three.frames.take(one.frames.len() as int)) by {
        assert(two.frames =~= three.frames.take(two.frames.len() as int));
    }
    assert forall|i: int| 0 <= i < one.inputs.len() implies {
        &&& (#[trigger] three.inputs[i]).row >= one.inputs[i].row
        &&& three.inputs[i].rows == one.inputs[i].rows
        &&& three.inputs[i].frames == one.inputs[i].frames
        &&& three.inputs[i].samples == one.inputs[i].samples
        &&& three.inputs[i].finished == one.inputs[i].finished
    } by {
        assert(two.inputs[i].row >= one.inputs[i].row);
    }
    assert forall|i: int, row: nat|
        0 <= i < one.inputs.len() && one.inputs[i].row <= row
            < three.inputs[i].row implies #[trigger] row_is_in(
        one.inputs[i],
        row,
        three.frames,
        one.frames.len(),
    ) by {
        assert(two.inputs[i].frames == one.inputs[i].frames);
        if row < two.inputs[i].row {
            assert(row_is_in(one.inputs[i], row, two.frames, one.frames.len()));
            let j = choose|j: int|
                one.frames.len() <= j < two.frames.len() && row_has_frame(
                    one.inputs[i],
                    row,
                    #[trigger] two.frames[j],
                );
            assert(three.frames[j] == two.frames[j]);
        } else {
            assert(row_is_in(two.inputs[i], row, three.frames, two.frames.len()));
            let j = choose|j: int|
                two.frames.len() <= j < three.frames.len() && row_has_frame(
                    two.inputs[i],
                    row,
                    #[trigger] three.frames[j],
                );
            assert(row_has_frame(one.inputs[i], row, three.frames[j]));
        }
    }
    assert forall|j: int| one.frames.len() <= j < three.frames.len() implies frame_was_taken(
        one.inputs,
        three.inputs,
        #[trigger] three.frames[j],
    ) by {
        if j < two.frames.len() {
            assert(three.frames[j] == two.frames[j]);
            assert(frame_was_taken(one.inputs, two.inputs, two.frames[j]));
            let (i, row) = choose|i: int, row: nat|
                0 <= i < one.inputs.len() && one.inputs[i].row <= row < two.inputs[i].row
                    && #[trigger] row_has_frame(one.inputs[i], row, two.frames[j]);
            assert(three.inputs[i].row >= two.inputs[i].row);
            assert(row_has_frame(one.inputs[i], row, three.frames[j]));
        } else {
            assert(frame_was_taken(two.inputs, three.inputs, three.frames[j]));
            let (i, row) = choose|i: int, row: nat|
                0 <= i < two.inputs.len() && two.inputs[i].row <= row < three.inputs[i].row
                    && #[trigger] row_has_frame(two.inputs[i], row, three.frames[j]);
            assert(two.inputs[i].row >= one.inputs[i].row);
            assert(row_has_frame(one.inputs[i], row, three.frames[j]));
        }
    }
}

/// A mixer hands out exactly the frames of the rows that it takes from its inputs: no row
/// is passed over, and no frame is added. Where it ends, every row of every input was
/// taken.
pub proof fn every_frame_of_every_input_is_handed_out(run: Mixing)
    requires
        all_wf(run.inputs),
    ensures
        takes_every_frame(run, run.rest()),
        run.rest().pause() == Some(Pause::End) ==> forall|i: int|
            0 <= i < run.inputs.len() ==> (#[trigger] run.rest().inputs[i]).finished
                && run.rest().inputs[i].row == run.rest().inputs[i].rows,
    decreases run.capacity - run.frames.len(),
{
    if run.pause().is_none() {
        let next = run.stepped(run.next_frame());
        lemma_step_takes(run);
        taking_a_frame_passes_it(run.inputs, run.next_frame());
        every_frame_of_every_input_is_handed_out(next);
        lemma_takes_on(run, next, next.rest());
    } else {
        assert(run.frames =~= run.frames.take(run.frames.len() as int));
        if run.pause() == Some(Pause::End) {
            merge_ends_with_its_last_input(run.inputs);
        }
    }
}

} // verus!
