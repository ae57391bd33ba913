//! What the nodes have in common.
use crate::arrow::{
    batch_columns, batch_metadata, schema_columns, schema_metadata, schema_text, single_text,
    single_to_text, ColumnModel, FrameBatch,
};
use crate::config::{find_frequency_fault, frequency_fault};
use crate::ieee::constants::{single_minus_one, single_one};
use crate::ieee::number::{Double, Single};
use crate::layout::{frame_columns, frame_metadata, is_frame_schema};
use crate::text::{decimal, decimal_text};
use datafusion::arrow::datatypes::{Schema, SchemaRef};
use datafusion::arrow::error::ArrowError;
use datafusion::error::DataFusionError;
use vstd::arithmetic::power2::pow2;
use vstd::prelude::*;

verus! {

/// Why a node could not be made or could not go on.
#[derive(Debug)]
pub enum NodeError {
    /// The graph breaks a rule.
    Plan(String),
    /// The data breaks a rule.
    Execution(String),
    /// The engine was misused.
    Internal(String),
    /// Arrow refused a batch.
    Arrow(ArrowError),
}

/// A result of a node.
pub type NodeResult<T> = std::result::Result<T, NodeError>;

/// Whether an error says that the graph breaks a rule, in these words.
pub open spec fn plan_error(error: NodeError, reason: Seq<char>) -> bool {
    error matches NodeError::Plan(text) && text@ == reason
}

/// Whether an error says that the data breaks a rule, in these words.
pub open spec fn execution_error(error: NodeError, reason: Seq<char>) -> bool {
    error matches NodeError::Execution(text) && text@ == reason
}

/// Whether an error says that the engine was misused, in these words.
pub open spec fn internal_error(error: NodeError, reason: Seq<char>) -> bool {
    error matches NodeError::Internal(text) && text@ == reason
}

/// The kinds of error that have a message of the library's own.
#[derive(Clone, Copy, Debug, PartialEq, Eq, Structural)]
pub enum ErrorKind {
    /// The graph breaks a rule.
    Plan,
    /// The data breaks a rule.
    Execution,
    /// The engine was misused.
    Internal,
}

/// An error of a kind, in words.
pub open spec fn shown_error(kind: ErrorKind, message: Seq<char>) -> Seq<char> {
    match kind {
        ErrorKind::Plan => "Error during planning: "@ + message,
        ErrorKind::Execution => "Execution error: "@ + message,
        ErrorKind::Internal => "Internal error: "@ + message
            + ".\nThis issue was likely caused by a bug in DataFusion's code. Please help us to resolve this by filing a bug report in our issue tracker: https://github.com/apache/datafusion/issues"@,
    }
}

/// A `DataFusionError` of this kind, shown by `to_string`: a fixed heading comes before the
/// message, and behind that of an internal error a request to report it.
#[verifier::external_body]
fn error_text(kind: ErrorKind, message: &str) -> (text: String)
    ensures
        text@ == shown_error(kind, message@),
{
    let message = message.to_string();
    let error = match kind {
        ErrorKind::Plan => DataFusionError::Plan(message),
        ErrorKind::Execution => DataFusionError::Execution(message),
        ErrorKind::Internal => DataFusionError::Internal(message),
    };
    error.to_string()
}

/// `ArrowError`, shown by `to_string`. Nothing is said of the text: what went wrong cannot
/// be seen in the error.
#[verifier::external_body]
fn arrow_text(error: &ArrowError) -> (text: String)
{
    error.to_string()
}

impl NodeError {
    /// Whether this is the text of the error. Of an error of Arrow only the heading is known.
    pub open spec fn reads(self, text: Seq<char>) -> bool {
        match self {
            NodeError::Plan(reason) => text == shown_error(ErrorKind::Plan, reason@),
            NodeError::Execution(reason) => text == shown_error(ErrorKind::Execution, reason@),
            NodeError::Internal(reason) => text == shown_error(ErrorKind::Internal, reason@),
            NodeError::Arrow(_) => exists|report: Seq<char>| text == "Arrow error: "@ + report,
        }
    }

    /// The error in words.
    pub fn to_string(&self) -> (text: String)
        ensures
            self.reads(text@),
    {
        match self {
            NodeError::Plan(reason) => error_text(ErrorKind::Plan, reason.as_str()),
            NodeError::Execution(reason) => error_text(ErrorKind::Execution, reason.as_str()),
            NodeError::Internal(reason) => error_text(ErrorKind::Internal, reason.as_str()),
            NodeError::Arrow(error) => {
                let report: String = arrow_text(error);
                let text: String = "Arrow error: ".to_owned().concat(report.as_str());
                assert(text@ == "Arrow error: "@ + report@);
                text
            },
        }
    }
}

/// When a node hands out its rows.
#[derive(Clone, Copy, Debug, PartialEq, Eq, Structural)]
pub enum Emission {
    /// As they arrive.
    Incremental,
    /// Once all input has been seen.
    Final,
    /// Some as they arrive and some in the end.
    Both,
}

/// Whether a node's rows ever end.
#[derive(Clone, Copy, Debug, PartialEq, Eq, Structural)]
pub enum Extent {
    /// They do.
    Bounded,
    /// They do not.
    Unbounded {
        /// Whether going on takes ever more memory.
        requires_infinite_memory: bool,
    },
}

/// What is known of a node before it runs.
#[derive(Debug)]
pub struct Properties {
    /// The schema of its rows.
    pub schema: SchemaRef,
    /// How many streams it hands out.
    pub partitions: usize,
    /// When it hands out its rows.
    pub emission: Emission,
    /// Whether its rows ever end.
    pub extent: Extent,
    /// Whether its rows are in the order of their frames.
    pub frame_ordered: bool,
}

impl Properties {
    /// Whether the rows are a frame signal at this rate.
    pub open spec fn is_frame_signal(self, sample_rate_hz: u32) -> bool {
        is_frame_schema(
            schema_columns(*self.schema),
            schema_metadata(*self.schema),
            sample_rate_hz,
        )
    }

    /// A copy that shares the schema.
    pub fn duplicate(&self) -> (r: Properties)
        ensures
            r == *self,
    {
        Properties {
            schema: self.schema.clone(),
            partitions: self.partitions,
            emission: self.emission,
            extent: self.extent,
            frame_ordered: self.frame_ordered,
        }
    }
}

/// What is said of an input with another schema; the two schemas are shown.
pub open spec fn input_mismatch(
    subject: Seq<char>,
    expected: Seq<char>,
    found: Seq<char>,
) -> Seq<char> {
    subject + expected + ", but got "@ + found
}

/// Whether an error names `subject` and two schemas, as one does of an input with
/// another schema.
pub open spec fn is_mismatch_error(error: NodeError, subject: Seq<char>) -> bool {
    exists|expected: Seq<char>, found: Seq<char>|
        plan_error(error, #[trigger] input_mismatch(subject, expected, found))
}

/// Reports an input with another schema.
pub(crate) fn mismatch_error(subject: &str, expected: &Schema, found: &Schema) -> (error: NodeError)
    ensures
        is_mismatch_error(error, subject@),
{
    let expected_text: String = schema_text(expected);
    let found_text: String = schema_text(found);
    let text: String = subject.to_owned().concat(expected_text.as_str()).concat(
        ", but got ",
    ).concat(found_text.as_str());
    let error: NodeError = NodeError::Plan(text);
    assert(plan_error(error, input_mismatch(subject@, expected_text@, found_text@)));
    error
}

/// All that is known of a schema.
pub struct SchemaModel {
    /// Its columns.
    pub columns: Seq<ColumnModel>,
    /// Its metadata.
    pub metadata: Map<Seq<char>, Seq<char>>,
}

/// All that is known of a schema.
pub open spec fn schema_model(schema: Schema) -> SchemaModel {
    SchemaModel { columns: schema_columns(schema), metadata: schema_metadata(schema) }
}

/// The schema of a frame signal at this rate.
pub open spec fn frame_model(sample_rate_hz: u32) -> SchemaModel {
    SchemaModel { columns: frame_columns(), metadata: frame_metadata(sample_rate_hz) }
}

/// Whether two schemas have the same columns and the same metadata.
pub open spec fn same_schema(a: Schema, b: Schema) -> bool {
    schema_model(a) == schema_model(b)
}

/// Checks that a frequency, called `name`, is finite, not negative and below half of the
/// sample rate.
pub fn validate_frequency(frequency_hz: Double, sample_rate_hz: u32, name: &str) -> (r: NodeResult<
    (),
>)
    ensures
        r.is_ok() == frequency_fault(frequency_hz, sample_rate_hz, name@).is_none(),
        r matches Err(error) ==> frequency_fault(frequency_hz, sample_rate_hz, name@) matches Some(
            reason,
        ) && plan_error(error, reason),
{
    match find_frequency_fault(frequency_hz, sample_rate_hz, name) {
        Some(fault) => Err(NodeError::Plan(fault)),
        None => Ok(()),
    }
}

/// Whether a sample lies in [-1, 1].
pub open spec fn normalized(sample: Single) -> bool {
    sample.finite() && -(pow2(149) as int) <= sample.value() <= pow2(149)
}

/// What is wrong with a sample of a frame signal.
pub open spec fn sample_fault(sample: Single, frame: u64, context: Seq<char>) -> Option<Seq<char>> {
    if !sample.finite() {
        Some(
            context + " has a non-finite sample at frame "@ + decimal(frame as nat) + ": "@
                + single_text(sample.bits),
        )
    } else if !normalized(sample) {
        Some(
            context + " has an out-of-range sample at frame "@ + decimal(frame as nat) + ": "@
                + single_text(sample.bits),
        )
    } else {
        None
    }
}

/// Whether a sample lies in [-1, 1].
pub fn is_normalized(sample: Single) -> (r: bool)
    ensures
        r == normalized(sample),
{
    sample.is_finite() && !sample.less_than(single_minus_one()) && !single_one().less_than(sample)
}

/// Checks that a sample is finite and lies in [-1, 1].
pub fn validate_sample(sample: Single, frame: u64, context: &str) -> (r: NodeResult<()>)
    ensures
        r.is_ok() == normalized(sample),
        r.is_ok() == sample_fault(sample, frame, context@).is_none(),
        r matches Err(error) ==> sample_fault(sample, frame, context@) matches Some(reason)
            && execution_error(error, reason),
{
    if !sample.is_finite() {
        return Err(
            NodeError::Execution(
                context.to_owned().concat(" has a non-finite sample at frame ").concat(
                    decimal_text(frame).as_str(),
                ).concat(": ").concat(single_to_text(sample).as_str()),
            ),
        );
    }
    if !is_normalized(sample) {
        return Err(
            NodeError::Execution(
                context.to_owned().concat(" has an out-of-range sample at frame ").concat(
                    decimal_text(frame).as_str(),
                ).concat(": ").concat(single_to_text(sample).as_str()),
            ),
        );
    }
    Ok(())
}

/// Whether a node was asked for another stream than its only one.
pub open spec fn partition_fault(name: Seq<char>, partition: usize) -> Option<Seq<char>> {
    if partition == 0 {
        None
    } else {
        Some(name + " supports only partition 0, got "@ + decimal(partition as nat))
    }
}

/// Checks that a node is asked for its only stream.
pub(crate) fn check_partition(name: &str, partition: usize) -> (r: NodeResult<()>)
    ensures
        r.is_ok() == (partition == 0),
        r matches Err(error) ==> partition_fault(name@, partition) matches Some(reason)
            && execution_error(error, reason),
{
    if partition != 0 {
        return Err(
            NodeError::Execution(
                name.to_owned().concat(" supports only partition 0, got ").concat(
                    decimal_text(partition as u64).as_str(),
                ),
            ),
        );
    }
    Ok(())
}

/// The frames from `from` up to `to`, in order.
pub open spec fn frame_run(from: u64, to: u64) -> Seq<u64> {
    Seq::new((to - from) as nat, |i: int| (from + i) as u64)
}

/// Where the batch that starts at a frame ends; frames are counted in 64 bits.
pub(crate) fn batch_end(name: &str, next_frame: u64, capacity: usize) -> (r: NodeResult<u64>)
    ensures
        r.is_ok() == (next_frame + capacity <= u64::MAX),
        r matches Ok(end) ==> end == next_frame + capacity,
        r matches Err(error) ==> execution_error(
            error,
            name@ + " exhausted the UInt64 frame domain"@,
        ),
{
    match next_frame.checked_add(capacity as u64) {
        Some(end) => Ok(end),
        None => Err(
            NodeError::Execution(name.to_owned().concat(" exhausted the UInt64 frame domain")),
        ),
    }
}

/// Writes down the frames of a batch.
pub(crate) fn list_frames(from: u64, to: u64) -> (frames: Vec<u64>)
    requires
        from <= to,
    ensures
        frames@ == frame_run(from, to),
{
    let mut frames: Vec<u64> = Vec::new();
    let mut next: u64 = from;
    while next < to
        invariant
            from <= next <= to,
            frames@ == frame_run(from, next),
        decreases to - next,
    {
        frames.push(next);
        next += 1;
        assert(frames@ =~= frame_run(from, next));
    }
    frames
}

/// Whether a batch has a node's schema.
pub open spec fn batch_matches(batch: FrameBatch, properties: Properties) -> bool {
    &&& batch_columns(batch) == schema_columns(*properties.schema)
    &&& batch_metadata(batch) == schema_metadata(*properties.schema)
}

/// The cells of a column without a null.
pub open spec fn cell_values<T>(cells: Seq<Option<T>>) -> Seq<T> {
    cells.map_values(|cell: Option<T>| cell.unwrap())
}

/// Batches that follow each other hold one run of frames.
pub proof fn batches_are_contiguous(from: u64, middle: u64, to: u64)
    requires
        from <= middle <= to,
    ensures
        frame_run(from, middle) + frame_run(middle, to) == frame_run(from, to),
{
    assert(frame_run(from, middle) + frame_run(middle, to) =~= frame_run(from, to));
}

} // verus!
