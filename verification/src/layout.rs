//! The columns and the metadata of a frame signal.
use crate::arrow::{
    column_model, frame_typed, new_schema, pairs_map, schema_columns, schema_metadata, types_known,
    Column, ColumnModel, ColumnType,
};
use crate::config::RenderConfig;
use crate::text::{decimal, decimal_text};
use datafusion::arrow::datatypes::{Schema, SchemaRef};
use vstd::prelude::*;

verus! {

/// The columns of a frame signal: the frame's index and its sample, neither ever null.
pub open spec fn frame_columns() -> Seq<ColumnModel> {
    seq![
        ColumnModel {
            name: "frame"@,
            kind: Some(ColumnType::UInt64),
            nullable: false,
            metadata: Map::empty(),
        },
        ColumnModel {
            name: "sample"@,
            kind: Some(ColumnType::Float32),
            nullable: false,
            metadata: Map::empty(),
        },
    ]
}

/// The metadata of a frame signal: its rate, one channel, and the layout's name.
pub open spec fn frame_metadata(sample_rate_hz: u32) -> Map<Seq<char>, Seq<char>> {
    Map::empty().insert("audio.sample_rate_hz"@, decimal(sample_rate_hz as nat)).insert(
        "audio.channels"@,
        "1"@,
    ).insert("audio.layout"@, "frame"@)
}

/// Whether a schema is that of a frame signal at this rate.
pub open spec fn is_frame_schema(
    columns: Seq<ColumnModel>,
    metadata: Map<Seq<char>, Seq<char>>,
    sample_rate_hz: u32,
) -> bool {
    columns == frame_columns() && metadata == frame_metadata(sample_rate_hz)
}

/// The schema of a frame signal: samples are finite, without a unit, and lie in [-1, 1].
pub fn frame_schema(config: &RenderConfig) -> (schema: SchemaRef)
    ensures
        is_frame_schema(
            schema_columns(*schema),
            schema_metadata(*schema),
            config@.sample_rate_hz,
        ),
        frame_typed(schema_columns(*schema)),
        types_known(schema_columns(*schema)),
{
    SchemaRef::new(frame_schema_val(config))
}

/// The schema of a frame signal, as a value of its own.
pub fn frame_schema_val(config: &RenderConfig) -> (schema: Schema)
    ensures
        is_frame_schema(schema_columns(schema), schema_metadata(schema), config@.sample_rate_hz),
        frame_typed(schema_columns(schema)),
        types_known(schema_columns(schema)),
{
    let frame: Column = Column {
        name: "frame".to_owned(),
        kind: ColumnType::UInt64,
        nullable: false,
    };
    let sample: Column = Column {
        name: "sample".to_owned(),
        kind: ColumnType::Float32,
        nullable: false,
    };
    let columns: Vec<Column> = vec![frame, sample];
    let metadata: Vec<(String, String)> = vec![
        ("audio.sample_rate_hz".to_owned(), decimal_text(config.sample_rate_hz() as u64)),
        ("audio.channels".to_owned(), "1".to_owned()),
        ("audio.layout".to_owned(), "frame".to_owned()),
    ];
    proof {
        reveal_strlit("audio.sample_rate_hz");
        reveal_strlit("audio.channels");
        reveal_strlit("audio.layout");
        assert("audio.sample_rate_hz"@.len() == 20);
        assert("audio.channels"@.len() == 14);
        assert("audio.layout"@.len() == 12);
        assert(columns@.map_values(|column: Column| column_model(column)) =~= frame_columns());
        let pairs = metadata@;
        reveal_with_fuel(pairs_map, 4);
        assert(pairs.drop_last().drop_last().drop_last() =~= Seq::empty());
        assert(pairs_map(pairs) =~= frame_metadata(config@.sample_rate_hz));
    }
    new_schema(columns, metadata)
}

} // verus!
