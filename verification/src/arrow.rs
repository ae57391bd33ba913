//! The Arrow values that frames travel in.
//!
//! What is not proved here is a claim about the Arrow crates, and about how Rust shows
//! the numbers that they hold. A schema is known by its columns and its metadata, a
//! batch also by its rows.
use crate::ieee::number::{Double, Single};
use datafusion::arrow::array::{Array, Float32Array, Float64Array, RecordBatch, UInt64Array};
use datafusion::arrow::buffer::{Buffer, ScalarBuffer};
use datafusion::arrow::datatypes::{DataType, Field, Schema, SchemaRef};
use datafusion::arrow::error::ArrowError;
use std::sync::Arc;
use vstd::prelude::*;

verus! {

/// Arrow's `Schema`: known by `schema_columns` and `schema_metadata` alone.
#[verifier::external_type_specification]
#[verifier::external_body]
pub struct ArrowSchema(Schema);

/// Arrow's `ArrowError`: why it refuses to put a batch together. It is only passed on.
#[verifier::external_type_specification]
#[verifier::external_body]
pub struct ArrowFailure(ArrowError);

/// Arrow's `RecordBatch`: known by the names below whose parameter it is.
#[verifier::external_body]
#[derive(Debug)]
pub struct FrameBatch {
    /// The batch as Arrow holds it.
    pub batch: RecordBatch,
}

/// The column types that frames use.
#[derive(Clone, Copy, Debug, PartialEq, Eq, Structural)]
pub enum ColumnType {
    /// Unsigned integers of 64 bits.
    UInt64,
    /// Single-precision numbers.
    Float32,
}

/// A column to be put in a schema.
pub struct Column {
    /// Its name.
    pub name: String,
    /// What it holds.
    pub kind: ColumnType,
    /// Whether it may hold nulls.
    pub nullable: bool,
}

/// What a schema says of a column.
pub struct ColumnModel {
    /// Its name.
    pub name: Seq<char>,
    /// What it holds; `None` for any type that frames do not use.
    pub kind: Option<ColumnType>,
    /// Whether it may hold nulls.
    pub nullable: bool,
    /// The metadata of the column itself.
    pub metadata: Map<Seq<char>, Seq<char>>,
}

/// The columns of a schema, in order.
pub uninterp spec fn schema_columns(schema: Schema) -> Seq<ColumnModel>;

/// The metadata of a schema.
pub uninterp spec fn schema_metadata(schema: Schema) -> Map<Seq<char>, Seq<char>>;

/// The columns of a batch, in order.
pub uninterp spec fn batch_columns(batch: FrameBatch) -> Seq<ColumnModel>;

/// The metadata of a batch.
pub uninterp spec fn batch_metadata(batch: FrameBatch) -> Map<Seq<char>, Seq<char>>;

/// The number of rows of a batch.
pub uninterp spec fn batch_rows(batch: FrameBatch) -> nat;

/// The first column of a batch, where it holds unsigned integers.
pub uninterp spec fn batch_frames(batch: FrameBatch) -> Seq<Option<u64>>;

/// The second column of a batch, where it holds single-precision numbers.
pub uninterp spec fn batch_samples(batch: FrameBatch) -> Seq<Option<Single>>;

/// How Rust displays a single-precision number with these bits.
pub uninterp spec fn single_text(bits: u32) -> Seq<char>;

/// How Rust displays a double-precision number with these bits.
pub uninterp spec fn double_text(bits: u64) -> Seq<char>;

/// How Rust's `Debug` shows a single-precision number with these bits.
pub uninterp spec fn single_debug_text(bits: u32) -> Seq<char>;

/// What the schema holds of a column that was made for it.
pub open spec fn column_model(column: Column) -> ColumnModel {
    ColumnModel {
        name: column.name@,
        kind: Some(column.kind),
        nullable: column.nullable,
        metadata: Map::empty(),
    }
}

/// Every column has a type that frames use.
pub open spec fn types_known(columns: Seq<ColumnModel>) -> bool {
    forall|i: int| 0 <= i < columns.len() ==> (#[trigger] columns[i]).kind.is_some()
}

/// The columns hold frame indices and samples, in this order and nothing else.
pub open spec fn frame_typed(columns: Seq<ColumnModel>) -> bool {
    &&& columns.len() == 2
    &&& columns[0].kind == Some(ColumnType::UInt64)
    &&& columns[1].kind == Some(ColumnType::Float32)
}

/// The map of a list of pairs.
pub open spec fn pairs_map(pairs: Seq<(String, String)>) -> Map<Seq<char>, Seq<char>>
    decreases pairs.len(),
{
    if pairs.len() == 0 {
        Map::empty()
    } else {
        pairs_map(pairs.drop_last()).insert(pairs.last().0@, pairs.last().1@)
    }
}

/// The same cells, none of them null.
pub open spec fn present<T>(cells: Seq<T>) -> Seq<Option<T>> {
    cells.map_values(|cell: T| Some(cell))
}

/// `Schema::new_with_metadata` keeps the columns that `Field::new` makes, in order and
/// without metadata of their own, and the metadata given.
#[verifier::external_body]
pub(crate) fn new_schema(columns: Vec<Column>, metadata: Vec<(String, String)>) -> (schema: Schema)
    requires
        forall|i: int, j: int|
            0 <= i < j < metadata@.len() ==> metadata@[i].0@ != metadata@[j].0@,
    ensures
        schema_columns(schema) == columns@.map_values(|column: Column| column_model(column)),
        schema_metadata(schema) == pairs_map(metadata@),
{
    let fields: Vec<Field> = columns.into_iter().map(|column| {
        let data_type = match column.kind {
            ColumnType::UInt64 => DataType::UInt64,
            ColumnType::Float32 => DataType::Float32,
        };
        Field::new(column.name, data_type, column.nullable)
    }).collect();
    Schema::new_with_metadata(fields, metadata.into_iter().collect())
}

/// `==` on schemas compares the metadata and, column by column, the name, the type, the
/// nullability and the column's metadata. Types that frames do not use are not told apart
/// here, so where the first schema has one, equal columns are not said to make it equal.
#[verifier::external_body]
pub(crate) fn schemas_equal(a: &Schema, b: &Schema) -> (r: bool)
    ensures
        r ==> schema_columns(*a) == schema_columns(*b) && schema_metadata(*a) == schema_metadata(
            *b,
        ),
        types_known(schema_columns(*a)) && schema_columns(*a) == schema_columns(*b)
            && schema_metadata(*a) == schema_metadata(*b) ==> r,
{
    a == b
}

/// The `Debug` text of a schema. It lists the metadata in the order of a hash map, so
/// nothing is said of it.
#[verifier::external_body]
pub(crate) fn schema_text(schema: &Schema) -> (text: String)
{
    format!("{schema:?}")
}

/// `RecordBatch::schema` gives the batch's columns and metadata.
#[verifier::external_body]
pub(crate) fn schema_of(batch: &FrameBatch) -> (schema: SchemaRef)
    ensures
        schema_columns(*schema) == batch_columns(*batch),
        schema_metadata(*schema) == batch_metadata(*batch),
{
    batch.batch.schema()
}

/// `RecordBatch::num_columns` counts the columns.
#[verifier::external_body]
pub(crate) fn column_count(batch: &FrameBatch) -> (columns: usize)
    ensures
        columns == batch_columns(*batch).len(),
{
    batch.batch.num_columns()
}

impl FrameBatch {
    /// Whether there is a column for frames and one for samples.
    pub fn has_two_columns(&self) -> (r: bool)
        ensures
            r == (batch_columns(*self).len() >= 2),
    {
        column_count(self) >= 2
    }
}

/// `RecordBatch::num_rows` counts the rows.
#[verifier::external_body]
pub(crate) fn row_count(batch: &FrameBatch) -> (rows: usize)
    ensures
        rows == batch_rows(*batch),
{
    batch.batch.num_rows()
}

/// `RecordBatch::column`, read as a `UInt64Array`: there is one exactly where the first
/// column has that type, and it has a cell for every row.
#[verifier::external_body]
pub(crate) fn frame_cells(batch: &FrameBatch) -> (cells: Option<Vec<Option<u64>>>)
    requires
        batch_columns(*batch).len() > 0,
    ensures
        cells.is_some() == (batch_columns(*batch)[0].kind == Some(ColumnType::UInt64)),
        cells matches Some(frames) ==> frames@ == batch_frames(*batch) && frames@.len()
            == batch_rows(*batch),
{
    let column = batch.batch.column(0).as_any().downcast_ref::<UInt64Array>()?;
    Some(column.iter().collect())
}

/// `RecordBatch::column`, read as a `Float32Array`: there is one exactly where the second
/// column has that type, and it has a cell for every row, whose bits are kept.
#[verifier::external_body]
pub(crate) fn sample_cells(batch: &FrameBatch) -> (cells: Option<Vec<Option<Single>>>)
    requires
        batch_columns(*batch).len() > 1,
    ensures
        cells.is_some() == (batch_columns(*batch)[1].kind == Some(ColumnType::Float32)),
        cells matches Some(samples) ==> samples@ == batch_samples(*batch) && samples@.len()
            == batch_rows(*batch),
{
    let column = batch.batch.column(1).as_any().downcast_ref::<Float32Array>()?;
    let cells = column.iter().map(|cell| cell.map(|sample| Single { bits: sample.to_bits() }));
    Some(cells.collect())
}

/// `RecordBatch::try_new` on a column of frame indices and one of samples, without nulls:
/// it succeeds exactly where the schema has two columns of these types and the two are
/// equally long.
#[verifier::external_body]
pub(crate) fn new_batch(schema: SchemaRef, frames: Vec<u64>, samples: Vec<Single>) -> (r: Result<
    FrameBatch,
    ArrowError,
>)
    ensures
        r.is_ok() == (frame_typed(schema_columns(*schema)) && frames@.len() == samples@.len()),
        r matches Ok(batch) ==> {
            &&& batch_columns(batch) == schema_columns(*schema)
            &&& batch_metadata(batch) == schema_metadata(*schema)
            &&& batch_rows(batch) == frames@.len()
            &&& batch_frames(batch) == present(frames@)
            &&& batch_samples(batch) == present(samples@)
        },
{
    let rows = samples.len();
    let bits: Vec<u32> = samples.into_iter().map(|sample| sample.bits).collect();
    let values = ScalarBuffer::new(Buffer::from_vec(bits), 0, rows);
    RecordBatch::try_new(
        schema,
        vec![Arc::new(UInt64Array::from(frames)), Arc::new(Float32Array::new(values, None))],
    ).map(|batch| FrameBatch { batch })
}

/// `to_string` of the number that a `Float32Array` made of these bits holds: its shortest
/// decimal text, of which only that it depends on the bits alone is said.
#[verifier::external_body]
pub(crate) fn single_to_text(number: Single) -> (text: String)
    ensures
        text@ == single_text(number.bits),
{
    let values = ScalarBuffer::new(Buffer::from_vec(vec![number.bits]), 0, 1);
    Float32Array::new(values, None).value(0).to_string()
}

/// `to_string` of the number that a `Float64Array` made of these bits holds: its shortest
/// decimal text, of which only that it depends on the bits alone is said.
#[verifier::external_body]
pub(crate) fn double_to_text(number: Double) -> (text: String)
    ensures
        text@ == double_text(number.bits),
{
    let values = ScalarBuffer::new(Buffer::from_vec(vec![number.bits]), 0, 1);
    Float64Array::new(values, None).value(0).to_string()
}

/// The `Debug` text of the number that a `Float32Array` made of these bits holds, of which
/// only that it depends on the bits alone is said.
#[verifier::external_body]
pub(crate) fn single_to_debug_text(number: Single) -> (text: String)
    ensures
        text@ == single_debug_text(number.bits),
{
    let values = ScalarBuffer::new(Buffer::from_vec(vec![number.bits]), 0, 1);
    format!("{:?}", Float32Array::new(values, None).value(0))
}

} // verus!
