//! The gain.
use crate::arrow::{
    batch_frames, batch_rows, batch_samples, frame_cells, frame_typed, new_batch, present,
    sample_cells, schema_columns, schema_of, schemas_equal, FrameBatch,
};
use crate::config::RenderConfig;
use crate::ieee::constants::lemma_ones;
use crate::ieee::bounds::{lemma_rounds_to_nearest, lemma_widened};
use crate::ieee::convert::{narrowed, widened};
use crate::ieee::format::{
    lemma_round_exact, lemma_rounding_monotone, lemma_units_increase, nearest, units,
};
use crate::ieee::number::{lemma_bounds, Double, Single};
use crate::ieee::round::{double_spec, single_spec};
use crate::layout::frame_schema;
use crate::physical::frame::node::{
    batch_matches, cell_values, execution_error, internal_error, is_mismatch_error,
    mismatch_error, normalized, plan_error,
    same_schema, sample_fault, validate_sample, NodeError, NodeResult, Properties,
};
use crate::physical::frame::plan::{Graph, Plan};
use crate::physical::frame::signal_laws::{a_gain_multiplies, is_product};
use datafusion::arrow::datatypes::SchemaRef;
use std::sync::Arc;
use vstd::arithmetic::power2::{lemma_pow2_adds, lemma_pow2_pos, pow2};
use vstd::prelude::*;

verus! {

/// Multiplies a normalized frame signal and saturates the result to [-1, 1].
#[derive(Debug)]
pub struct FrameGainExec {
    pub(crate) input: Arc<Plan>,
    pub(crate) gain: Single,
    pub(crate) properties: Properties,
}

/// A number brought into [-1, 1].
pub open spec fn saturated(x: Double) -> Double {
    if x.below(Double { bits: 0xbff0_0000_0000_0000 }) {
        Double { bits: 0xbff0_0000_0000_0000 }
    } else if (Double { bits: 0x3ff0_0000_0000_0000 }).below(x) {
        Double { bits: 0x3ff0_0000_0000_0000 }
    } else {
        x
    }
}

/// A sample times a gain, in double precision, saturated and rounded to a sample.
pub open spec fn amplified(sample: Single, gain: Single) -> Single {
    narrowed(saturated(widened(sample).product_spec(widened(gain))))
}

/// Multiplies a sample by a gain.
pub fn amplify(sample: Single, gain: Single) -> (r: Single)
    ensures
        r == amplified(sample, gain),
{
    let product: Double = sample.widen().times(gain.widen());
    let low: Double = Double { bits: 0xbff0_0000_0000_0000 };
    let high: Double = Double { bits: 0x3ff0_0000_0000_0000 };
    let kept: Double = if product.less_than(low) {
        low
    } else if high.less_than(product) {
        high
    } else {
        product
    };
    kept.narrow()
}

/// What is wrong with the first faulty row from `row` on.
pub open spec fn gain_fault(
    frames: Seq<Option<u64>>,
    samples: Seq<Option<Single>>,
    row: nat,
) -> Option<Seq<char>>
    decreases frames.len() - row,
{
    if row >= frames.len() {
        None
    } else if frames[row as int].is_none() || samples[row as int].is_none() {
        Some("FrameGainExec received a null frame or sample"@)
    } else if sample_fault(
        samples[row as int].unwrap(),
        frames[row as int].unwrap(),
        "FrameGainExec input"@,
    ).is_some() {
        sample_fault(
            samples[row as int].unwrap(),
            frames[row as int].unwrap(),
            "FrameGainExec input"@,
        )
    } else {
        gain_fault(frames, samples, row + 1)
    }
}

impl FrameGainExec {
    /// The schema holds frames and samples, and the gain is a number.
    #[verifier::type_invariant]
    pub(crate) open(crate) spec fn wf(self) -> bool {
        &&& frame_typed(schema_columns(*self.properties.schema))
        &&& self.gain.finite()
    }

    /// Puts a gain behind a frame signal.
    pub fn try_new(config: &RenderConfig, input: Arc<Plan>, gain: Single) -> (r: NodeResult<
        FrameGainExec,
    >)
        ensures
            r.is_ok() == (gain.finite() && input.known().is_frame_signal(config@.sample_rate_hz)),
            r matches Ok(node) ==> {
                &&& Plan::Gain(node).known() == input.known()
                &&& Plan::Gain(node).graph() == (Graph::Gain {
                    input: Box::new(input.graph()),
                    factor: gain,
                })
                &&& Plan::Gain(node).inputs() == seq![input]
            },
            r matches Err(error) ==> if !gain.finite() {
                plan_error(error, "gain must be finite"@)
            } else {
                is_mismatch_error(error, "FrameGainExec expected input schema to be "@)
            },
    {
        if !gain.is_finite() {
            return Err(NodeError::Plan("gain must be finite".to_owned()));
        }
        let schema: SchemaRef = frame_schema(config);
        let found: &SchemaRef = &input.properties().schema;
        if !schemas_equal(&schema, found) {
            return Err(
                mismatch_error("FrameGainExec expected input schema to be ", &schema, found),
            );
        }
        let properties: Properties = input.properties().duplicate();
        Ok(FrameGainExec { input, gain, properties })
    }

    /// The node's name.
    pub fn name(&self) -> (name: &str)
        ensures
            name@ == "FrameGainExec"@,
    {
        "FrameGainExec"
    }

    /// The signal that is amplified.
    pub fn input(&self) -> (r: &Arc<Plan>)
        ensures
            Plan::Gain(*self).inputs() == seq![*r],
    {
        &self.input
    }

    /// The factor.
    pub fn gain(&self) -> (r: Single)
        ensures
            Plan::Gain(*self).graph() matches Graph::Gain { input, factor } && factor == r,
    {
        self.gain
    }

    /// Puts the gain behind another signal with the same schema.
    pub fn with_new_children(&self, children: Vec<Arc<Plan>>) -> (r: NodeResult<FrameGainExec>)
        ensures
            r.is_ok() == (children@.len() == 1 && same_schema(
                *children@[0].known().schema,
                *Plan::Gain(*self).known().schema,
            )),
            r matches Ok(node) ==> {
                &&& Plan::Gain(node).known() == children@[0].known()
                &&& Plan::Gain(node).inputs() == children@
                &&& Plan::Gain(*self).graph() matches Graph::Gain { input, factor }
                    && Plan::Gain(node).graph() == (Graph::Gain {
                    input: Box::new(children@[0].graph()),
                    factor,
                })
            },
            r matches Err(error) ==> if children@.len() != 1 {
                internal_error(error, "FrameGainExec supports only one child"@)
            } else {
                is_mismatch_error(error, "FrameGainExec expected input schema to be "@)
            },
    {
        proof {
            use_type_invariant(self);
        }
        if children.len() != 1 {
            return Err(NodeError::Internal("FrameGainExec supports only one child".to_owned()));
        }
        let input: Arc<Plan> = children[0].clone();
        let found: &SchemaRef = &input.properties().schema;
        if !schemas_equal(&self.properties.schema, found) {
            return Err(
                mismatch_error(
                    "FrameGainExec expected input schema to be ",
                    &self.properties.schema,
                    found,
                ),
            );
        }
        let properties: Properties = input.properties().duplicate();
        Ok(FrameGainExec { input, gain: self.gain, properties })
    }

    /// Amplifies a batch of the input. Every sample of it must lie in [-1, 1].
    pub fn apply(&self, batch: &FrameBatch) -> (r: NodeResult<FrameBatch>)
        ensures
            ({
                let accepted = batch_matches(*batch, Plan::Gain(*self).known());
                let frames = batch_frames(*batch);
                let samples = batch_samples(*batch);
                &&& r.is_ok() == (accepted && gain_fault(frames, samples, 0).is_none())
                &&& r matches Ok(output) ==> {
                    &&& batch_matches(output, Plan::Gain(*self).known())
                    &&& batch_rows(output) == batch_rows(*batch)
                    &&& batch_frames(output) == frames
                    &&& Plan::Gain(*self).graph() matches Graph::Gain { input, factor }
                        && batch_samples(output) == present(
                        cell_values(samples).map_values(|sample: Single| amplified(sample, factor)),
                    )
                }
                &&& r matches Ok(output) ==> (Plan::Gain(*self).graph() matches Graph::Gain {
                    input,
                    factor,
                } && forall|row: int|
                    0 <= row < batch_rows(output) ==> samples[row].is_some() && (
                    #[trigger] batch_samples(output)[row]).is_some() && is_product(
                        samples[row].unwrap(),
                        factor,
                        batch_samples(output)[row].unwrap(),
                    ))
                &&& r matches Err(error) ==> if !accepted {
                    execution_error(
                        error,
                        "FrameGainExec received an incompatible batch schema"@,
                    )
                } else {
                    gain_fault(frames, samples, 0) matches Some(reason) && execution_error(
                        error,
                        reason,
                    )
                }
            }),
    {
        proof {
            use_type_invariant(self);
        }
        let found: SchemaRef = schema_of(batch);
        if !schemas_equal(&self.properties.schema, &found) {
            return Err(
                NodeError::Execution(
                    "FrameGainExec received an incompatible batch schema".to_owned(),
                ),
            );
        }
        let frames: Vec<Option<u64>> = match frame_cells(batch) {
            Some(frames) => frames,
            None => {
                return Err(NodeError::Execution("FrameGainExec expected UInt64 frames".to_owned()));
            },
        };
        let samples: Vec<Option<Single>> = match sample_cells(batch) {
            Some(samples) => samples,
            None => {
                return Err(
                    NodeError::Execution(
                        "FrameGainExec expected a Float32 sample column".to_owned(),
                    ),
                );
            },
        };
        let mut kept: Vec<u64> = Vec::new();
        let mut output: Vec<Single> = Vec::new();
        let mut row: usize = 0;
        let ghost scale = |sample: Single| amplified(sample, self.gain);
        while row < frames.len()
            invariant
                row <= frames@.len() == samples@.len(),
                frames@ == batch_frames(*batch),
                samples@ == batch_samples(*batch),
                batch_matches(*batch, self.properties),
                gain_fault(frames@, samples@, 0) == gain_fault(frames@, samples@, row as nat),
                present(kept@) == frames@.take(row as int),
                output@ == cell_values(samples@.take(row as int)).map_values(scale),
                scale == (|sample: Single| amplified(sample, self.gain)),
                forall|i: int|
                    0 <= i < row ==> (#[trigger] samples@[i]).is_some()
                        && samples@[i].unwrap().finite(),
            decreases frames@.len() - row,
        {
            match (frames[row], samples[row]) {
                (Some(frame), Some(sample)) => {
                    validate_sample(sample, frame, "FrameGainExec input")?;
                    kept.push(frame);
                    output.push(amplify(sample, self.gain));
                    assert(present(kept@) =~= frames@.take(row + 1)) by {
                        assert(present(kept@).drop_last() =~= frames@.take(row as int));
                    }
                    assert(output@ =~= cell_values(samples@.take(row + 1)).map_values(scale));
                },
                _ => {
                    return Err(
                        NodeError::Execution(
                            "FrameGainExec received a null frame or sample".to_owned(),
                        ),
                    );
                },
            }
            row += 1;
        }
        assert(frames@.take(row as int) =~= frames@);
        assert(samples@.take(row as int) =~= samples@);
        proof {
            assert forall|i: int| 0 <= i < samples@.len() implies is_product(
                samples@[i].unwrap(),
                self.gain,
                #[trigger] output@[i],
            ) by {
                assert(samples@[i].is_some());
                a_gain_multiplies(samples@[i].unwrap(), self.gain);
            }
        }
        match new_batch(self.properties.schema.clone(), kept, output) {
            Ok(batch) => Ok(batch),
            Err(error) => Err(NodeError::Arrow(error)),
        }
    }
}

/// A number brought into [-1, 1] is there.
proof fn lemma_saturated(x: Double)
    requires
        !x.nan(),
    ensures
        saturated(x).finite(),
        -(pow2(1074) as int) <= saturated(x).value() <= pow2(1074),
{
    let low = Double { bits: 0xbff0_0000_0000_0000 };
    let high = Double { bits: 0x3ff0_0000_0000_0000 };
    lemma_bounds();
    lemma_ones();
    assert(low.value() == -(pow2(1074) as int));
    assert(high.value() == pow2(1074));
    let kept = saturated(x);
    if kept.datum().mag >= 0x7ff0_0000_0000_0000 {
        lemma_units_increase(52, 0x3ff0_0000_0000_0000, kept.datum().mag as nat);
    }
}

/// A number in [-1, 1] stays there when it is rounded to a sample.
pub proof fn lemma_narrowed(x: Double)
    requires
        x.finite(),
        -(pow2(1074) as int) <= x.value() <= pow2(1074),
    ensures
        normalized(narrowed(x)),
{
    let top = single_spec().top_spec();
    let one: nat = 0x3f80_0000;
    let num = units(52, x.datum().mag as nat);
    let den = pow2(925);
    lemma_bounds();
    lemma_ones();
    lemma_pow2_pos(925);
    lemma_pow2_adds(149, 925);
    lemma_round_exact(23, top, one, pow2(1074), den);
    lemma_rounds_to_nearest(23, top, num, den);
    let mag = nearest(23, top, num, den);
    lemma_rounding_monotone(23, top, mag, num, one, pow2(1074), den);
    if mag < one {
        lemma_units_increase(23, mag, one);
    }
}

/// Whatever the gain, an amplified sample lies in [-1, 1].
pub proof fn gain_saturates(sample: Single, gain: Single)
    requires
        sample.finite(),
        gain.finite(),
    ensures
        normalized(amplified(sample, gain)),
{
    let a = widened(sample);
    let b = widened(gain);
    lemma_bounds();
    lemma_widened(sample);
    lemma_widened(gain);
    let product = a.product_spec(b);
    let num = units(52, a.datum().mag as nat) * units(52, b.datum().mag as nat);
    lemma_rounds_to_nearest(52, double_spec().top_spec(), num, pow2(1074));
    assert(!product.nan());
    lemma_saturated(product);
    lemma_narrowed(saturated(product));
}

} // verus!
