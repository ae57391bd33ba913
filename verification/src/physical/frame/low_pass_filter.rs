//! The low-pass filter.
use crate::arrow::{
    batch_frames, batch_rows, batch_samples, frame_cells, frame_typed, new_batch, present,
    sample_cells, schema_columns, schema_of, schemas_equal, FrameBatch,
};
use crate::config::{frequency_fault, RenderConfig};
use crate::ieee::closeness::agrees;
use crate::ieee::constants::zero;
use crate::ieee::convert::{narrowed, widened};
use crate::ieee::number::{Double, Single};
use crate::layout::frame_schema;
use crate::physical::frame::node::{
    batch_matches, cell_values, execution_error, internal_error, is_mismatch_error, mismatch_error,
    plan_error, same_schema, validate_frequency, NodeError, NodeResult, Properties,
};
use crate::physical::frame::plan::{Graph, Plan};
use crate::text::{decimal, decimal_text};
use crate::wave_laws::{decay_exponent_is_the_cutoff_per_frame, lemma_frequency_bound};
use datafusion::arrow::datatypes::SchemaRef;
use std::sync::Arc;
use vstd::prelude::*;

verus! {

/// A one-pole low-pass filter that starts at zero.
///
/// For consecutive frames, `y[n] = (1 - a) * y[n - 1] + a * x[n]`, where
/// `a = 1 - exp(-2 * PI * cutoff_hz / sample_rate_hz)`. Missing frame numbers
/// advance the filter with zero input, without adding output rows.
#[derive(Debug)]
pub struct FrameLowPassFilterExec {
    pub(crate) input: Arc<Plan>,
    pub(crate) cutoff_hz: Double,
    pub(crate) exponent: Double,
    pub(crate) properties: Properties,
}

/// The logarithm of what is left of the filter's state after one frame.
pub open spec fn decay_exponent(cutoff_hz: Double, sample_rate_hz: u32) -> Double {
    Double { bits: 0xc019_21fb_5444_2d18 }.product_spec(cutoff_hz).quotient_spec(
        Double::whole_spec(sample_rate_hz as u64),
    )
}

/// What is wrong with a cutoff.
pub open spec fn cutoff_fault(cutoff_hz: Double, sample_rate_hz: u32) -> Option<Seq<char>> {
    if frequency_fault(cutoff_hz, sample_rate_hz, "cutoff_hz"@).is_some() {
        frequency_fault(cutoff_hz, sample_rate_hz, "cutoff_hz"@)
    } else if cutoff_hz.value() == 0 {
        Some("cutoff_hz must be greater than 0"@)
    } else {
        None
    }
}

impl FrameLowPassFilterExec {
    /// The schema holds frames and samples.
    #[verifier::type_invariant]
    pub(crate) open(crate) spec fn wf(self) -> bool {
        frame_typed(schema_columns(*self.properties.schema))
    }

    /// Puts a filter behind a frame signal.
    pub fn try_new(config: &RenderConfig, input: Arc<Plan>, cutoff_hz: Double) -> (r: NodeResult<
        FrameLowPassFilterExec,
    >)
        ensures
            r.is_ok() == (cutoff_fault(cutoff_hz, config@.sample_rate_hz).is_none()
                && input.known().is_frame_signal(config@.sample_rate_hz)),
            r matches Ok(node) ==> {
                &&& Plan::LowPass(node).known() == (Properties {
                    frame_ordered: false,
                    ..input.known()
                })
                &&& Plan::LowPass(node).graph() == (Graph::LowPass {
                    input: Box::new(input.graph()),
                    cutoff_hz,
                    exponent: decay_exponent(cutoff_hz, config@.sample_rate_hz),
                })
                &&& Plan::LowPass(node).inputs() == seq![input]
                &&& config@.sample_rate_hz > 0 ==> agrees(
                    Plan::LowPass(node).graph()->LowPass_exponent.value(),
                    6283185307179586 * (-cutoff_hz.value()),
                    1_000_000_000_000_000 * config@.sample_rate_hz,
                    47,
                )
            },
            r matches Err(error) ==> match cutoff_fault(cutoff_hz, config@.sample_rate_hz) {
                Some(reason) => plan_error(error, reason),
                None => is_mismatch_error(
                    error,
                    "FrameLowPassFilterExec expected input schema to be "@,
                ),
            },
    {
        validate_frequency(cutoff_hz, config.sample_rate_hz(), "cutoff_hz")?;
        if !zero().less_than(cutoff_hz) {
            return Err(NodeError::Plan("cutoff_hz must be greater than 0".to_owned()));
        }
        let schema: SchemaRef = frame_schema(config);
        let found: &SchemaRef = &input.properties().schema;
        if !schemas_equal(&schema, found) {
            return Err(
                mismatch_error(
                    "FrameLowPassFilterExec expected input schema to be ",
                    &schema,
                    found,
                ),
            );
        }
        proof {
            if config@.sample_rate_hz > 0 {
                lemma_frequency_bound(cutoff_hz, config@.sample_rate_hz);
                decay_exponent_is_the_cutoff_per_frame(cutoff_hz, config@.sample_rate_hz);
            }
        }
        let minus_turn: Double = Double { bits: 0xc019_21fb_5444_2d18 };
        let exponent: Double = minus_turn.times(cutoff_hz).over(
            Double::from_whole(config.sample_rate_hz() as u64),
        );
        Ok(FrameLowPassFilterExec::new(input, cutoff_hz, exponent))
    }

    /// Puts a filter behind a signal whose schema was checked.
    fn new(input: Arc<Plan>, cutoff_hz: Double, exponent: Double) -> (node: FrameLowPassFilterExec)
        requires
            frame_typed(schema_columns(*input.known().schema)),
        ensures
            Plan::LowPass(node).known() == (Properties { frame_ordered: false, ..input.known() }),
            Plan::LowPass(node).graph() == (Graph::LowPass {
                input: Box::new(input.graph()),
                cutoff_hz,
                exponent,
            }),
            Plan::LowPass(node).inputs() == seq![input],
    {
        let known: &Properties = input.properties();
        let properties: Properties = Properties {
            schema: known.schema.clone(),
            partitions: known.partitions,
            emission: known.emission,
            extent: known.extent,
            frame_ordered: false,
        };
        FrameLowPassFilterExec { input, cutoff_hz, exponent, properties }
    }

    /// The node's name.
    pub fn name(&self) -> (name: &str)
        ensures
            name@ == "FrameLowPassFilterExec"@,
    {
        "FrameLowPassFilterExec"
    }

    /// The signal that is filtered.
    pub fn input(&self) -> (r: &Arc<Plan>)
        ensures
            Plan::LowPass(*self).inputs() == seq![*r],
    {
        &self.input
    }

    /// Where the high frequencies begin.
    pub fn cutoff_hz(&self) -> (r: Double)
        ensures
            Plan::LowPass(*self).graph() matches Graph::LowPass { input, cutoff_hz, exponent }
                && cutoff_hz == r,
    {
        self.cutoff_hz
    }

    /// The logarithm of what is left of the state after one frame.
    pub fn exponent(&self) -> (r: Double)
        ensures
            Plan::LowPass(*self).graph() matches Graph::LowPass { input, cutoff_hz, exponent }
                && exponent == r,
    {
        self.exponent
    }

    /// Puts the filter behind another signal with the same schema.
    pub fn with_new_children(&self, children: Vec<Arc<Plan>>) -> (r: NodeResult<
        FrameLowPassFilterExec,
    >)
        ensures
            r.is_ok() == (children@.len() == 1 && same_schema(
                *children@[0].known().schema,
                *Plan::LowPass(*self).known().schema,
            )),
            r matches Ok(node) ==> {
                &&& Plan::LowPass(node).known() == (Properties {
                    frame_ordered: false,
                    ..children@[0].known()
                })
                &&& Plan::LowPass(node).inputs() == children@
                &&& Plan::LowPass(*self).graph() matches Graph::LowPass {
                    input,
                    cutoff_hz,
                    exponent,
                } && Plan::LowPass(node).graph() == (Graph::LowPass {
                    input: Box::new(children@[0].graph()),
                    cutoff_hz,
                    exponent,
                })
            },
            r matches Err(error) ==> if children@.len() != 1 {
                internal_error(error, "FrameLowPassFilterExec requires one child"@)
            } else {
                is_mismatch_error(error, "FrameLowPassFilterExec expected input schema to be "@)
            },
    {
        proof {
            use_type_invariant(self);
        }
        if children.len() != 1 {
            return Err(NodeError::Internal("FrameLowPassFilterExec requires one child".to_owned()));
        }
        let input: Arc<Plan> = children[0].clone();
        let found: &SchemaRef = &input.properties().schema;
        if !schemas_equal(&self.properties.schema, found) {
            return Err(
                mismatch_error(
                    "FrameLowPassFilterExec expected input schema to be ",
                    &self.properties.schema,
                    found,
                ),
            );
        }
        Ok(FrameLowPassFilterExec::new(input, self.cutoff_hz, self.exponent))
    }

    /// Starts a stream of the filter, with the part of the state that one frame keeps and
    /// the part of a sample that it takes in.
    pub fn execute(&self, alpha: Double, decay: Double) -> (run: LowPassRun)
        ensures
            run@ == (Filtering { alpha, decay, state: Double { bits: 0 }, last_frame: None }),
            run.known() == Plan::LowPass(*self).known(),
    {
        proof {
            use_type_invariant(self);
        }
        LowPassRun {
            properties: self.properties.duplicate(),
            alpha,
            decay,
            state: Double { bits: 0 },
            last_frame: None,
        }
    }
}

/// Where a filter stands.
pub struct Filtering {
    /// The part of a sample that is taken in.
    pub alpha: Double,
    /// The part of the state that one frame keeps.
    pub decay: Double,
    /// The state.
    pub state: Double,
    /// The last frame that was filtered.
    pub last_frame: Option<u64>,
}

/// A stream of a low-pass filter.
pub struct LowPassRun {
    properties: Properties,
    alpha: Double,
    decay: Double,
    state: Double,
    last_frame: Option<u64>,
}

impl View for LowPassRun {
    type V = Filtering;

    closed spec fn view(&self) -> Filtering {
        Filtering {
            alpha: self.alpha,
            decay: self.decay,
            state: self.state,
            last_frame: self.last_frame,
        }
    }
}

/// What is wrong with a row that follows the frame `last`.
pub open spec fn filter_fault(
    last: Option<u64>,
    frame: Option<u64>,
    sample: Option<Single>,
) -> Option<Seq<char>> {
    if frame.is_none() || sample.is_none() {
        Some("FrameLowPassFilterExec received a null frame or sample"@)
    } else if last.is_some() && frame.unwrap() <= last.unwrap() {
        Some(
            "FrameLowPassFilterExec input frames must increase: "@ + decimal(frame.unwrap() as nat)
                + " follows "@ + decimal(last.unwrap() as nat),
        )
    } else if !sample.unwrap().finite() {
        Some(
            "FrameLowPassFilterExec received a non-finite sample at frame "@ + decimal(
                frame.unwrap() as nat,
            ),
        )
    } else {
        None
    }
}

/// The frame that the row follows.
pub open spec fn frame_before(
    start: Option<u64>,
    frames: Seq<Option<u64>>,
    row: int,
) -> Option<u64> {
    if row <= 0 {
        start
    } else {
        frames[row - 1]
    }
}

/// How many frames went by since the last one.
pub open spec fn frames_since(last: Option<u64>, frame: u64) -> int {
    match last {
        None => 1,
        Some(last) => frame - last,
    }
}

/// How many frames went by before each of some rows, the first of which follows `start`.
pub open spec fn elapsed_of(start: Option<u64>, frames: Seq<u64>) -> Seq<u64> {
    Seq::new(
        frames.len(),
        |i: int|
            frames_since(
                if i == 0 {
                    start
                } else {
                    Some(frames[i - 1])
                },
                frames[i],
            ) as u64,
    )
}

/// Whether the first `count` rows can be filtered.
pub open spec fn filterable(
    start: Option<u64>,
    frames: Seq<Option<u64>>,
    samples: Seq<Option<Single>>,
    count: int,
) -> bool {
    forall|i: int|
        0 <= i < count ==> filter_fault(
            frame_before(start, frames, i),
            #[trigger] frames[i],
            samples[i],
        ).is_none()
}

/// The rows of a batch that can be filtered, and what is wrong with the next one.
pub struct FilterRows {
    /// Their frames.
    pub frames: Vec<u64>,
    /// Their samples.
    pub samples: Vec<Single>,
    /// How many frames went by before each.
    pub elapsed: Vec<u64>,
    /// What is wrong with the row behind them, where there is one.
    pub fault: Option<NodeError>,
}

/// The state after `count` rows: the state decays, by a power of the decay where frames
/// are missing, and takes in its part of the sample.
pub open spec fn filtered_state(
    run: Filtering,
    samples: Seq<Single>,
    elapsed: Seq<u64>,
    powers: Seq<Double>,
    count: nat,
) -> Double
    decreases count,
{
    if count == 0 {
        run.state
    } else {
        let row = count - 1;
        let retained = if elapsed[row] == 1 {
            run.decay
        } else {
            powers[row]
        };
        retained.product_spec(
            filtered_state(run, samples, elapsed, powers, row as nat),
        ).sum_spec(run.alpha.product_spec(widened(samples[row])))
    }
}

impl LowPassRun {
    /// The schema holds frames and samples.
    #[verifier::type_invariant]
    spec fn wf(self) -> bool {
        frame_typed(schema_columns(*self.properties.schema))
    }

    /// What is known of the filter.
    pub closed spec fn known(self) -> Properties {
        self.properties
    }

    /// Looks through a batch of the input, as far as its frames increase and its samples
    /// are finite.
    pub fn inspect(&self, batch: &FrameBatch) -> (r: NodeResult<FilterRows>)
        ensures
            r.is_ok() == batch_matches(*batch, self.known()),
            r matches Ok(rows) ==> {
                let frames = batch_frames(*batch);
                let samples = batch_samples(*batch);
                let count = rows.frames@.len() as int;
                &&& count <= batch_rows(*batch)
                &&& filterable(self@.last_frame, frames, samples, count)
                &&& rows.frames@ == cell_values(frames.take(count))
                &&& rows.samples@ == cell_values(samples.take(count))
                &&& rows.samples@.len() == count
                &&& rows.elapsed@ == elapsed_of(self@.last_frame, rows.frames@)
                &&& rows.elapsed@.len() == count
                &&& forall|i: int|
                    0 <= i < count ==> #[trigger] rows.elapsed@[i] == frames_since(
                        frame_before(self@.last_frame, frames, i),
                        frames[i].unwrap(),
                    )
                &&& rows.fault.is_none() == (count == batch_rows(*batch))
                &&& rows.fault matches Some(error) ==> filter_fault(
                    frame_before(self@.last_frame, frames, count),
                    frames[count],
                    samples[count],
                ) matches Some(reason) && execution_error(error, reason)
            },
            r matches Err(error) ==> execution_error(
                error,
                "FrameLowPassFilterExec received an incompatible batch schema"@,
            ),
    {
        proof {
            use_type_invariant(self);
        }
        let found: SchemaRef = schema_of(batch);
        if !schemas_equal(&self.properties.schema, &found) {
            return Err(
                NodeError::Execution(
                    "FrameLowPassFilterExec received an incompatible batch schema".to_owned(),
                ),
            );
        }
        let frames: Vec<Option<u64>> = match frame_cells(batch) {
            Some(frames) => frames,
            None => {
                return Err(NodeError::Execution("expected UInt64 frames".to_owned()));
            },
        };
        let samples: Vec<Option<Single>> = match sample_cells(batch) {
            Some(samples) => samples,
            None => {
                return Err(NodeError::Execution("expected Float32 samples".to_owned()));
            },
        };
        let mut kept: Vec<u64> = Vec::new();
        let mut values: Vec<Single> = Vec::new();
        let mut elapsed: Vec<u64> = Vec::new();
        let mut last: Option<u64> = self.last_frame;
        let mut row: usize = 0;
        let mut fault: Option<NodeError> = None;
        while row < frames.len() && fault.is_none()
            invariant
                row <= frames@.len() == samples@.len(),
                last == frame_before(self@.last_frame, frames@, row as int),
                filterable(self@.last_frame, frames@, samples@, row as int),
                kept@ == cell_values(frames@.take(row as int)),
                values@ == cell_values(samples@.take(row as int)),
                elapsed@.len() == row,
                forall|i: int|
                    0 <= i < row ==> #[trigger] elapsed@[i] == frames_since(
                        frame_before(self@.last_frame, frames@, i),
                        frames@[i].unwrap(),
                    ),
                fault matches Some(error) ==> row < frames@.len() && (filter_fault(
                    frame_before(self@.last_frame, frames@, row as int),
                    frames@[row as int],
                    samples@[row as int],
                ) matches Some(reason) && execution_error(error, reason)),
            decreases frames@.len() - row, (if fault.is_none() {
                1int
            } else {
                0int
            }),
        {
            fault = find_filter_fault(last, frames[row], samples[row]);
            if fault.is_none() {
                match (frames[row], samples[row]) {
                    (Some(frame), Some(sample)) => {
                        let since: u64 = match last {
                            None => 1,
                            Some(last) => frame - last,
                        };
                        kept.push(frame);
                        values.push(sample);
                        elapsed.push(since);
                        assert(kept@ =~= cell_values(frames@.take(row + 1)));
                        assert(values@ =~= cell_values(samples@.take(row + 1)));
                        last = Some(frame);
                    },
                    _ => {},
                }
                row += 1;
            }
        }
        proof {
            let counted = elapsed_of(self@.last_frame, kept@);
            assert forall|i: int| 0 <= i < row implies #[trigger] elapsed@[i] == counted[i] by {
                assert(filter_fault(
                    frame_before(self@.last_frame, frames@, i),
                    frames@[i],
                    samples@[i],
                ).is_none());
                if i > 0 {
                    assert(filter_fault(
                        frame_before(self@.last_frame, frames@, i - 1),
                        frames@[i - 1],
                        samples@[i - 1],
                    ).is_none());
                    assert(kept@[i - 1] == frames@[i - 1].unwrap());
                }
                assert(kept@[i] == frames@[i].unwrap());
            }
            assert(elapsed@ =~= counted);
        }
        Ok(FilterRows { frames: kept, samples: values, elapsed, fault })
    }

    /// Filters the rows that were looked through. Where frames are missing before a row,
    /// `powers` holds the decay over all of them.
    pub fn apply(&mut self, rows: FilterRows, powers: &Vec<Double>) -> (r: NodeResult<FrameBatch>)
        requires
            rows.frames@.len() == rows.samples@.len() == rows.elapsed@.len() == powers@.len(),
        ensures
            final(self)@ == (Filtering {
                state: filtered_state(
                    old(self)@,
                    rows.samples@,
                    rows.elapsed@,
                    powers@,
                    powers@.len(),
                ),
                last_frame: if rows.frames@.len() == 0 {
                    old(self)@.last_frame
                } else {
                    Some(rows.frames@.last())
                },
                ..old(self)@
            }),
            final(self).known() == old(self).known(),
            r.is_ok() == rows.fault.is_none(),
            r matches Ok(batch) ==> {
                &&& batch_matches(batch, old(self).known())
                &&& batch_rows(batch) == rows.frames@.len()
                &&& batch_frames(batch) == present(rows.frames@)
                &&& batch_samples(batch) == present(
                    filtered_samples(old(self)@, rows.samples@, rows.elapsed@, powers@),
                )
            },
            r matches Err(error) ==> rows.fault == Some(error),
    {
        proof {
            use_type_invariant(&*self);
        }
        let ghost start = self@;
        let ghost all = filtered_samples(start, rows.samples@, rows.elapsed@, powers@);
        let mut state: Double = self.state;
        let mut filtered: Vec<Single> = Vec::new();
        let mut row: usize = 0;
        while row < rows.samples.len()
            invariant
                row <= rows.samples@.len() == rows.elapsed@.len() == powers@.len(),
                start == self@,
                all == filtered_samples(start, rows.samples@, rows.elapsed@, powers@),
                state == filtered_state(
                    start,
                    rows.samples@,
                    rows.elapsed@,
                    powers@,
                    row as nat,
                ),
                filtered@ == all.take(row as int),
            decreases rows.samples@.len() - row,
        {
            let retained: Double = if rows.elapsed[row] == 1 {
                self.decay
            } else {
                powers[row]
            };
            state = retained.times(state).plus(self.alpha.times(rows.samples[row].widen()));
            filtered.push(state.narrow());
            row += 1;
            assert(filtered@ =~= all.take(row as int));
        }
        assert(all.take(row as int) =~= all);
        self.state = state;
        if rows.frames.len() > 0 {
            self.last_frame = Some(rows.frames[rows.frames.len() - 1]);
        }
        match rows.fault {
            Some(error) => Err(error),
            None => match new_batch(self.properties.schema.clone(), rows.frames, filtered) {
                Ok(batch) => Ok(batch),
                Err(error) => Err(NodeError::Arrow(error)),
            },
        }
    }
}

/// The output for each row: the state after it.
pub open spec fn filtered_samples(
    run: Filtering,
    samples: Seq<Single>,
    elapsed: Seq<u64>,
    powers: Seq<Double>,
) -> Seq<Single> {
    Seq::new(
        samples.len(),
        |i: int| narrowed(filtered_state(run, samples, elapsed, powers, (i + 1) as nat)),
    )
}

/// Names what is wrong with a row.
fn find_filter_fault(
    last: Option<u64>,
    frame: Option<u64>,
    sample: Option<Single>,
) -> (fault: Option<NodeError>)
    ensures
        fault.is_some() == filter_fault(last, frame, sample).is_some(),
        fault matches Some(error) ==> filter_fault(last, frame, sample) matches Some(reason)
            && execution_error(error, reason),
{
    match (frame, sample) {
        (Some(frame), Some(sample)) => {
            if let Some(last) = last {
                if frame <= last {
                    return Some(
                        NodeError::Execution(
                            "FrameLowPassFilterExec input frames must increase: ".to_owned().concat(
                                decimal_text(frame).as_str(),
                            ).concat(" follows ").concat(decimal_text(last).as_str()),
                        ),
                    );
                }
            }
            if !sample.is_finite() {
                return Some(
                    NodeError::Execution(
                        "FrameLowPassFilterExec received a non-finite sample at frame ".to_owned().concat(
                        decimal_text(frame).as_str()),
                    ),
                );
            }
            None
        },
        _ => Some(
            NodeError::Execution(
                "FrameLowPassFilterExec received a null frame or sample".to_owned(),
            ),
        ),
    }
}

/// Filtering some rows and then others is filtering them all at once: where a batch ends
/// does not matter.
pub proof fn filter_ignores_batch_boundaries(
    run: Filtering,
    samples: Seq<Single>,
    elapsed: Seq<u64>,
    powers: Seq<Double>,
    cut: nat,
    count: nat,
)
    requires
        samples.len() == elapsed.len() == powers.len(),
        cut <= count <= samples.len(),
    ensures
        filtered_state(run, samples, elapsed, powers, count) == filtered_state(
            Filtering {
                state: filtered_state(
                    run,
                    samples.take(cut as int),
                    elapsed.take(cut as int),
                    powers.take(cut as int),
                    cut,
                ),
                ..run
            },
            samples.skip(cut as int),
            elapsed.skip(cut as int),
            powers.skip(cut as int),
            (count - cut) as nat,
        ),
    decreases count,
{
    if count > cut {
        filter_ignores_batch_boundaries(run, samples, elapsed, powers, cut, (count - 1) as nat);
    } else {
        lemma_filtered_prefix(run, samples, elapsed, powers, cut, cut);
    }
}

/// The state after some rows does not depend on later ones.
pub proof fn lemma_filtered_prefix(
    run: Filtering,
    samples: Seq<Single>,
    elapsed: Seq<u64>,
    powers: Seq<Double>,
    cut: nat,
    count: nat,
)
    requires
        samples.len() == elapsed.len() == powers.len(),
        count <= cut <= samples.len(),
    ensures
        filtered_state(run, samples, elapsed, powers, count) == filtered_state(
            run,
            samples.take(cut as int),
            elapsed.take(cut as int),
            powers.take(cut as int),
            count,
        ),
    decreases count,
{
    if count > 0 {
        lemma_filtered_prefix(run, samples, elapsed, powers, cut, (count - 1) as nat);
    }
}

} // verus!
