//! From rendered batches to one run of samples.
use crate::arrow::{
    batch_columns, batch_frames, batch_metadata, batch_samples, frame_cells,
    sample_cells, schema_columns, schema_metadata, schema_of, schema_text, schemas_equal,
    types_known, FrameBatch,
};
use crate::config::RenderConfig;
use crate::error::{invalid_render, Error, Result};
use crate::ieee::number::Single;
use crate::layout::{frame_columns, frame_schema, is_frame_schema};
use crate::text::{decimal, decimal_text};
use datafusion::arrow::datatypes::SchemaRef;
use vstd::prelude::*;

verus! {

/// `usize::try_from` on a `u64` succeeds exactly where the number fits, and keeps it.
/// Nothing is said of the text of its error.
#[verifier::external_body]
pub(crate) fn platform_index(value: u64) -> (r: std::result::Result<usize, String>)
    ensures
        r.is_ok() == (value <= usize::MAX),
        r matches Ok(index) ==> index == value,
{
    usize::try_from(value).map_err(|error| error.to_string())
}

/// Where a row stands: its batch and its place in it.
pub open spec fn place_text(batch_index: nat, row_index: nat) -> Seq<char> {
    "batch "@ + decimal(batch_index) + " row "@ + decimal(row_index)
}

/// What is wrong with a row that should hold the frame `next` of `frame_count`.
pub open spec fn row_fault(
    frame_count: u64,
    next: nat,
    batch_index: nat,
    row_index: nat,
    frame: Option<u64>,
    sample: Option<Single>,
) -> Option<Seq<char>> {
    let place = place_text(batch_index, row_index);
    if next >= frame_count {
        Some(
            "unexpected extra frame in "@ + place + "; expected coverage 0.."@ + decimal(
                frame_count as nat,
            ),
        )
    } else if frame.is_none() {
        Some("null frame index in "@ + place)
    } else if sample.is_none() {
        Some("null sample at frame "@ + decimal(next) + " in "@ + place)
    } else if frame.unwrap() != next {
        Some(
            "discontinuous frame sequence in "@ + place + ": expected frame "@ + decimal(next)
                + ", got "@ + decimal(frame.unwrap() as nat),
        )
    } else if !sample.unwrap().finite() {
        Some("non-finite sample at frame "@ + decimal(next) + " in "@ + place)
    } else {
        None
    }
}

/// What is wrong with the first faulty row from `row` on, where the batch's first row
/// should hold the frame `next`.
pub open spec fn rows_fault(
    frame_count: u64,
    next: nat,
    batch_index: nat,
    frames: Seq<Option<u64>>,
    samples: Seq<Option<Single>>,
    row: nat,
) -> Option<Seq<char>>
    decreases frames.len() - row,
{
    if row >= frames.len() {
        None
    } else if row_fault(
        frame_count,
        next + row,
        batch_index,
        row,
        frames[row as int],
        samples[row as int],
    ).is_some() {
        row_fault(
            frame_count,
            next + row,
            batch_index,
            row,
            frames[row as int],
            samples[row as int],
        )
    } else {
        rows_fault(frame_count, next, batch_index, frames, samples, row + 1)
    }
}

/// Whether a batch has the schema of a frame signal at this rate.
pub open spec fn is_frame_batch(batch: FrameBatch, sample_rate_hz: u32) -> bool {
    is_frame_schema(batch_columns(batch), batch_metadata(batch), sample_rate_hz)
}

/// The samples of a batch, as they follow each other.
pub open spec fn sample_values(samples: Seq<Option<Single>>) -> Seq<Single> {
    samples.map_values(|sample: Option<Single>| sample.unwrap())
}

/// How far a decoder has come.
pub struct Decoding {
    /// The rate of the signal.
    pub sample_rate_hz: u32,
    /// How many frames there are to be.
    pub frame_count: u64,
    /// The frame that comes next.
    pub next_frame: nat,
    /// The batches that were taken.
    pub batch_index: nat,
}

impl Decoding {
    /// Whether the batch goes on where the last one ended.
    pub open spec fn accepts(self, batch: FrameBatch) -> bool {
        &&& is_frame_batch(batch, self.sample_rate_hz)
        &&& rows_fault(
            self.frame_count,
            self.next_frame,
            self.batch_index,
            batch_frames(batch),
            batch_samples(batch),
            0,
        ).is_none()
    }

    /// Whether this is why the batch is refused.
    pub open spec fn refuses(self, batch: FrameBatch, reason: Seq<char>) -> bool {
        if !is_frame_batch(batch, self.sample_rate_hz) {
            exists|expected: Seq<char>, found: Seq<char>|
                reason == schema_mismatch(self.batch_index, expected, found)
        } else {
            rows_fault(
                self.frame_count,
                self.next_frame,
                self.batch_index,
                batch_frames(batch),
                batch_samples(batch),
                0,
            ) == Some(reason)
        }
    }

    /// Why the signal cannot end here.
    pub open spec fn early_end(self) -> Seq<char> {
        "frame render ended early: first missing frame is "@ + decimal(self.next_frame)
            + "; expected coverage 0.."@ + decimal(self.frame_count as nat)
    }
}

/// What is said of a batch with another schema; the two schemas are shown.
pub open spec fn schema_mismatch(
    batch_index: nat,
    expected: Seq<char>,
    found: Seq<char>,
) -> Seq<char> {
    "schema mismatch in batch "@ + decimal(batch_index) + ": expected "@ + expected + ", got "@
        + found
}

/// Every row from `row` on is in its place exactly where no fault is found.
proof fn lemma_rows_fault(
    frame_count: u64,
    next: nat,
    batch_index: nat,
    frames: Seq<Option<u64>>,
    samples: Seq<Option<Single>>,
    row: nat,
)
    requires
        row <= frames.len(),
    ensures
        rows_fault(frame_count, next, batch_index, frames, samples, row).is_none() <==> forall|
            i: int,
        |
            row <= i < frames.len() ==> #[trigger] row_in_place(
                frame_count,
                next,
                frames,
                samples,
                i,
            ),
    decreases frames.len() - row,
{
    if row < frames.len() {
        lemma_rows_fault(frame_count, next, batch_index, frames, samples, row + 1);
        assert(row_fault(
            frame_count,
            next + row,
            batch_index,
            row,
            frames[row as int],
            samples[row as int],
        ).is_none() == row_in_place(frame_count, next, frames, samples, row as int));
        if forall|i: int|
            row + 1 <= i < frames.len() ==> #[trigger] row_in_place(
                frame_count,
                next,
                frames,
                samples,
                i,
            ) {
            if row_in_place(frame_count, next, frames, samples, row as int) {
                assert forall|i: int| row <= i < frames.len() implies #[trigger] row_in_place(
                    frame_count,
                    next,
                    frames,
                    samples,
                    i,
                ) by {
                    if i > row {
                    }
                }
            }
        }
    }
}

/// A row that holds the frame it should and a finite sample.
pub open spec fn row_in_place(
    frame_count: u64,
    next: nat,
    frames: Seq<Option<u64>>,
    samples: Seq<Option<Single>>,
    row: int,
) -> bool {
    &&& next + row < frame_count
    &&& frames[row].is_some()
    &&& frames[row].unwrap() == next + row
    &&& samples[row].is_some()
    &&& samples[row].unwrap().finite()
}

/// Takes the batches of a render one after the other.
pub struct FrameDecoder {
    sample_rate_hz: u32,
    frame_count: u64,
    next_frame: u64,
    batch_index: u64,
    schema: SchemaRef,
}

impl View for FrameDecoder {
    type V = Decoding;

    closed spec fn view(&self) -> Decoding {
        Decoding {
            sample_rate_hz: self.sample_rate_hz,
            frame_count: self.frame_count,
            next_frame: self.next_frame as nat,
            batch_index: self.batch_index as nat,
        }
    }
}

impl FrameDecoder {
    /// The schema is the one of the rate.
    #[verifier::type_invariant]
    spec fn wf(self) -> bool {
        &&& is_frame_schema(
            schema_columns(*self.schema),
            schema_metadata(*self.schema),
            self.sample_rate_hz,
        )
        &&& self.next_frame <= self.frame_count
    }

    /// Starts at the first frame.
    pub fn new(config: &RenderConfig) -> (decoder: FrameDecoder)
        ensures
            decoder@ == (Decoding {
                sample_rate_hz: config@.sample_rate_hz,
                frame_count: config@.frame_count,
                next_frame: 0,
                batch_index: 0,
            }),
            decoder@.frame_count > 0,
    {
        FrameDecoder {
            sample_rate_hz: config.sample_rate_hz(),
            frame_count: config.frame_count(),
            next_frame: 0,
            batch_index: 0,
            schema: frame_schema(config),
        }
    }

    /// Takes a batch and gives its samples. A refused batch leaves the decoder as it was.
    pub fn decode_batch(&mut self, batch: &FrameBatch) -> (r: Result<Vec<Single>>)
        ensures
            r.is_ok() == old(self)@.accepts(*batch),
            is_frame_batch(*batch, old(self)@.sample_rate_hz) ==> batch_frames(*batch).len()
                == batch_samples(*batch).len(),
            r matches Ok(samples) ==> {
                &&& samples@ == sample_values(batch_samples(*batch))
                &&& samples@.len() == batch_frames(*batch).len()
                &&& samples@.len() == batch_samples(*batch).len()
                &&& final(self)@ == (Decoding {
                    next_frame: old(self)@.next_frame + samples@.len(),
                    batch_index: final(self)@.batch_index,
                    ..old(self)@
                })
                &&& final(self)@.batch_index == old(self)@.batch_index + 1
                    || old(self)@.batch_index == u64::MAX && final(self)@.batch_index == u64::MAX
            },
            r matches Err(error) ==> {
                &&& error matches Error::InvalidRender(reason) && old(self)@.refuses(
                    *batch,
                    reason@,
                )
                &&& final(self)@ == old(self)@
            },
    {
        proof {
            use_type_invariant(&*self);
        }
        let found: SchemaRef = schema_of(batch);
        assert(types_known(frame_columns()));
        if !schemas_equal(&self.schema, &found) {
            let expected_text: String = schema_text(&self.schema);
            let found_text: String = schema_text(&found);
            let reason: String = "schema mismatch in batch ".to_owned().concat(
                decimal_text(self.batch_index).as_str(),
            ).concat(": expected ").concat(expected_text.as_str()).concat(", got ").concat(
                found_text.as_str(),
            );
            assert(reason@ == schema_mismatch(
                self@.batch_index,
                expected_text@,
                found_text@,
            ));
            return Err(Error::InvalidRender(reason));
        }
        let frames: Vec<Option<u64>> = match frame_cells(batch) {
            Some(frames) => frames,
            None => {
                return Err(
                    Error::InvalidRender(
                        "batch ".to_owned().concat(decimal_text(self.batch_index).as_str()).concat(
                            " frame column 0 is not a UInt64Array",
                        ),
                    ),
                );
            },
        };
        let samples: Vec<Option<Single>> = match sample_cells(batch) {
            Some(samples) => samples,
            None => {
                return Err(
                    Error::InvalidRender(
                        "batch ".to_owned().concat(decimal_text(self.batch_index).as_str()).concat(
                            " sample column 1 is not a Float32Array",
                        ),
                    ),
                );
            },
        };
        let chunk: Vec<Single> = decode_rows(
            self.frame_count,
            self.next_frame,
            self.batch_index,
            &frames,
            &samples,
        )?;
        proof {
            lemma_rows_fault(
                self.frame_count,
                self.next_frame as nat,
                self.batch_index as nat,
                frames@,
                samples@,
                0,
            );
            if frames@.len() > 0 {
                assert(row_in_place(
                    self.frame_count,
                    self.next_frame as nat,
                    frames@,
                    samples@,
                    frames@.len() - 1,
                ));
            }
        }
        self.next_frame = self.next_frame + chunk.len() as u64;
        self.batch_index = if self.batch_index == u64::MAX {
            u64::MAX
        } else {
            self.batch_index + 1
        };
        Ok(chunk)
    }

    /// Checks that every frame came.
    pub fn finish(&self) -> (r: Result<()>)
        ensures
            r.is_ok() == (self@.next_frame == self@.frame_count),
            r matches Err(error) ==> invalid_render(error, self@.early_end()),
    {
        if self.next_frame != self.frame_count {
            return Err(
                Error::InvalidRender(
                    "frame render ended early: first missing frame is ".to_owned().concat(
                        decimal_text(self.next_frame).as_str(),
                    ).concat("; expected coverage 0..").concat(
                        decimal_text(self.frame_count).as_str(),
                    ),
                ),
            );
        }
        Ok(())
    }
}

/// Checks the rows of a batch one after the other and gives their samples.
pub fn decode_rows(
    frame_count: u64,
    next_frame: u64,
    batch_index: u64,
    frames: &Vec<Option<u64>>,
    samples: &Vec<Option<Single>>,
) -> (r: Result<Vec<Single>>)
    requires
        frames@.len() == samples@.len(),
    ensures
        r.is_ok() == rows_fault(
            frame_count,
            next_frame as nat,
            batch_index as nat,
            frames@,
            samples@,
            0,
        ).is_none(),
        r matches Ok(chunk) ==> chunk@ == sample_values(samples@),
        r matches Err(error) ==> error matches Error::InvalidRender(reason) && rows_fault(
            frame_count,
            next_frame as nat,
            batch_index as nat,
            frames@,
            samples@,
            0,
        ) == Some(reason@),
{
    let mut chunk: Vec<Single> = Vec::new();
    let mut row: usize = 0;
    while row < frames.len()
        invariant
            row <= frames@.len() == samples@.len(),
            next_frame + row <= frame_count || row == 0,
            chunk@ == sample_values(samples@.take(row as int)),
            rows_fault(frame_count, next_frame as nat, batch_index as nat, frames@, samples@, 0)
                == rows_fault(
                frame_count,
                next_frame as nat,
                batch_index as nat,
                frames@,
                samples@,
                row as nat,
            ),
        decreases frames@.len() - row,
    {
        let place: String = "batch ".to_owned().concat(decimal_text(batch_index).as_str()).concat(
            " row ",
        ).concat(decimal_text(row as u64).as_str());
        assert(place@ == place_text(batch_index as nat, row as nat));
        let ghost fault = row_fault(
            frame_count,
            (next_frame + row) as nat,
            batch_index as nat,
            row as nat,
            frames@[row as int],
            samples@[row as int],
        );
        if frame_count <= next_frame || frame_count - next_frame <= row as u64 {
            return Err(
                Error::InvalidRender(
                    "unexpected extra frame in ".to_owned().concat(place.as_str()).concat(
                        "; expected coverage 0..",
                    ).concat(decimal_text(frame_count).as_str()),
                ),
            );
        }
        let expected: u64 = next_frame + row as u64;
        match frames[row] {
            None => {
                return Err(
                    Error::InvalidRender(
                        "null frame index in ".to_owned().concat(place.as_str()),
                    ),
                );
            },
            Some(actual) => {
                match samples[row] {
                    None => {
                        return Err(
                            Error::InvalidRender(
                                "null sample at frame ".to_owned().concat(
                                    decimal_text(expected).as_str(),
                                ).concat(" in ").concat(place.as_str()),
                            ),
                        );
                    },
                    Some(sample) => {
                        if actual != expected {
                            return Err(
                                Error::InvalidRender(
                                    "discontinuous frame sequence in ".to_owned().concat(
                                        place.as_str(),
                                    ).concat(": expected frame ").concat(
                                        decimal_text(expected).as_str(),
                                    ).concat(", got ").concat(decimal_text(actual).as_str()),
                                ),
                            );
                        }
                        if !sample.is_finite() {
                            return Err(
                                Error::InvalidRender(
                                    "non-finite sample at frame ".to_owned().concat(
                                        decimal_text(actual).as_str(),
                                    ).concat(" in ").concat(place.as_str()),
                                ),
                            );
                        }
                        assert(fault.is_none());
                        chunk.push(sample);
                        assert(chunk@ =~= sample_values(samples@.take(row + 1)));
                    },
                }
            },
        }
        row += 1;
    }
    assert(samples@.take(row as int) =~= samples@);
    Ok(chunk)
}

/// The frame cells of some batches, one after the other.
pub open spec fn joined_frames(batches: Seq<FrameBatch>) -> Seq<Option<u64>>
    decreases batches.len(),
{
    if batches.len() == 0 {
        Seq::empty()
    } else {
        joined_frames(batches.drop_last()) + batch_frames(batches.last())
    }
}

/// The sample cells of some batches, one after the other.
pub open spec fn joined_samples(batches: Seq<FrameBatch>) -> Seq<Option<Single>>
    decreases batches.len(),
{
    if batches.len() == 0 {
        Seq::empty()
    } else {
        joined_samples(batches.drop_last()) + batch_samples(batches.last())
    }
}

/// Whether some rows hold the frames from the first one on, each with a finite sample.
pub open spec fn in_order(frames: Seq<Option<u64>>, samples: Seq<Option<Single>>) -> bool {
    &&& frames.len() == samples.len()
    &&& forall|i: int|
        0 <= i < frames.len() ==> (#[trigger] frames[i]).is_some() && frames[i].unwrap() == i
    &&& forall|i: int|
        0 <= i < samples.len() ==> (#[trigger] samples[i]).is_some() && samples[i].unwrap().finite()
}

/// Whether the batches of a render hold exactly its frames, however they are cut.
pub open spec fn complete(
    batches: Seq<FrameBatch>,
    sample_rate_hz: u32,
    frame_count: u64,
) -> bool {
    &&& forall|i: int|
        0 <= i < batches.len() ==> is_frame_batch(#[trigger] batches[i], sample_rate_hz)
    &&& in_order(joined_frames(batches), joined_samples(batches))
    &&& joined_frames(batches).len() == frame_count
}

/// Where a decoder stands once it took the first `taken` batches.
pub open spec fn decoding_after(
    batches: Seq<FrameBatch>,
    taken: int,
    sample_rate_hz: u32,
    frame_count: u64,
) -> Decoding {
    Decoding {
        sample_rate_hz,
        frame_count,
        next_frame: joined_frames(batches.take(taken)).len(),
        batch_index: taken as nat,
    }
}

/// Whether a decoder takes the first `count` batches, one after the other.
pub open spec fn takes(
    batches: Seq<FrameBatch>,
    count: int,
    sample_rate_hz: u32,
    frame_count: u64,
) -> bool {
    forall|i: int|
        0 <= i < count ==> decoding_after(batches, i, sample_rate_hz, frame_count).accepts(
            #[trigger] batches[i],
        )
}

/// Whether both columns of every batch have a cell for every row.
pub open spec fn well_shaped(batches: Seq<FrameBatch>) -> bool {
    forall|i: int|
        0 <= i < batches.len() ==> batch_frames(#[trigger] batches[i]).len() == batch_samples(
            batches[i],
        ).len()
}

/// Rows that go on in order are each in place, and the other way round.
proof fn lemma_in_order_goes_on(
    frames: Seq<Option<u64>>,
    samples: Seq<Option<Single>>,
    more_frames: Seq<Option<u64>>,
    more_samples: Seq<Option<Single>>,
    frame_count: u64,
)
    requires
        frames.len() == samples.len(),
        more_frames.len() == more_samples.len(),
    ensures
        in_order(frames + more_frames, samples + more_samples) && frames.len() + more_frames.len()
            <= frame_count <==> {
            &&& in_order(frames, samples)
            &&& frames.len() <= frame_count
            &&& forall|i: int|
                0 <= i < more_frames.len() ==> #[trigger] row_in_place(
                    frame_count,
                    frames.len(),
                    more_frames,
                    more_samples,
                    i,
                )
        },
{
    let all_frames = frames + more_frames;
    let all_samples = samples + more_samples;
    let base = frames.len();
    if in_order(all_frames, all_samples) && all_frames.len() <= frame_count {
        assert forall|i: int| 0 <= i < base implies (#[trigger] frames[i]).is_some()
            && frames[i].unwrap() == i by {
            assert(all_frames[i] == frames[i]);
        }
        assert forall|i: int| 0 <= i < base implies (#[trigger] samples[i]).is_some()
            && samples[i].unwrap().finite() by {
            assert(all_samples[i] == samples[i]);
        }
        assert forall|i: int| 0 <= i < more_frames.len() implies #[trigger] row_in_place(
            frame_count,
            base,
            more_frames,
            more_samples,
            i,
        ) by {
            assert(all_frames[base + i] == more_frames[i]);
            assert(all_samples[base + i] == more_samples[i]);
        }
    }
    if in_order(frames, samples) && base <= frame_count && forall|i: int|
        0 <= i < more_frames.len() ==> #[trigger] row_in_place(
            frame_count,
            base,
            more_frames,
            more_samples,
            i,
        ) {
        assert forall|i: int| 0 <= i < all_frames.len() implies (#[trigger] all_frames[i]).is_some()
            && all_frames[i].unwrap() == i by {
            if i >= base {
                assert(row_in_place(frame_count, base, more_frames, more_samples, i - base));
            }
        }
        assert forall|i: int| 0 <= i < all_samples.len() implies (
        #[trigger] all_samples[i]).is_some() && all_samples[i].unwrap().finite() by {
            if i >= base {
                assert(row_in_place(frame_count, base, more_frames, more_samples, i - base));
            }
        }
        if more_frames.len() > 0 {
            assert(row_in_place(
                frame_count,
                base,
                more_frames,
                more_samples,
                more_frames.len() - 1,
            ));
        }
    }
}

/// A decoder knows nothing of the batches that are yet to come.
proof fn lemma_takes_prefix(
    batches: Seq<FrameBatch>,
    prefix: Seq<FrameBatch>,
    count: int,
    sample_rate_hz: u32,
    frame_count: u64,
)
    requires
        0 <= count <= prefix.len() <= batches.len(),
        prefix == batches.take(prefix.len() as int),
    ensures
        takes(batches, count, sample_rate_hz, frame_count) == takes(
            prefix,
            count,
            sample_rate_hz,
            frame_count,
        ),
{
    assert forall|i: int| 0 <= i < count implies decoding_after(
        batches,
        i,
        sample_rate_hz,
        frame_count,
    ) == decoding_after(prefix, i, sample_rate_hz, frame_count) && #[trigger] batches[i]
        == prefix[i] by {
        assert(batches.take(i) =~= prefix.take(i));
    }
    if takes(batches, count, sample_rate_hz, frame_count) {
        assert forall|i: int| 0 <= i < count implies decoding_after(
            prefix,
            i,
            sample_rate_hz,
            frame_count,
        ).accepts(#[trigger] prefix[i]) by {
            assert(batches[i] == prefix[i]);
        }
    }
}

/// What a decoder took is in order, and what is in order it takes.
proof fn lemma_takes(batches: Seq<FrameBatch>, sample_rate_hz: u32, frame_count: u64)
    requires
        well_shaped(batches),
    ensures
        joined_frames(batches).len() == joined_samples(batches).len(),
        takes(batches, batches.len() as int, sample_rate_hz, frame_count) <==> {
            &&& forall|i: int|
                0 <= i < batches.len() ==> is_frame_batch(#[trigger] batches[i], sample_rate_hz)
            &&& in_order(joined_frames(batches), joined_samples(batches))
            &&& joined_frames(batches).len() <= frame_count
        },
    decreases batches.len(),
{
    if batches.len() > 0 {
        let rest = batches.drop_last();
        let last = batches.last();
        let n = rest.len() as int;
        lemma_takes(rest, sample_rate_hz, frame_count);
        assert(rest =~= batches.take(n));
        lemma_takes_prefix(batches, rest, n, sample_rate_hz, frame_count);
        let before = decoding_after(batches, n, sample_rate_hz, frame_count);
        assert(batches[n] == last);
        lemma_rows_fault(
            frame_count,
            before.next_frame,
            n as nat,
            batch_frames(last),
            batch_samples(last),
            0,
        );
        lemma_in_order_goes_on(
            joined_frames(rest),
            joined_samples(rest),
            batch_frames(last),
            batch_samples(last),
            frame_count,
        );
        let whole = takes(batches, batches.len() as int, sample_rate_hz, frame_count);
        let start = takes(batches, n, sample_rate_hz, frame_count);
        assert(whole ==> start && before.accepts(batches[n]));
        assert(start && before.accepts(batches[n]) ==> whole) by {
            if start && before.accepts(batches[n]) {
                assert forall|i: int| 0 <= i < batches.len() implies decoding_after(
                    batches,
                    i,
                    sample_rate_hz,
                    frame_count,
                ).accepts(#[trigger] batches[i]) by {
                    if i == n {
                        assert(before.accepts(batches[n]));
                    }
                }
            }
        }
        let all_typed = forall|i: int|
            0 <= i < batches.len() ==> is_frame_batch(#[trigger] batches[i], sample_rate_hz);
        let rest_typed = forall|i: int|
            0 <= i < rest.len() ==> is_frame_batch(#[trigger] rest[i], sample_rate_hz);
        assert(all_typed == (rest_typed && is_frame_batch(last, sample_rate_hz))) by {
            if all_typed {
                assert forall|i: int| 0 <= i < rest.len() implies is_frame_batch(
                    #[trigger] rest[i],
                    sample_rate_hz,
                ) by {
                    assert(rest[i] == batches[i]);
                }
                assert(is_frame_batch(batches[n], sample_rate_hz));
            }
            if rest_typed && is_frame_batch(last, sample_rate_hz) {
                assert forall|i: int| 0 <= i < batches.len() implies is_frame_batch(
                    #[trigger] batches[i],
                    sample_rate_hz,
                ) by {
                    if i < n {
                        assert(rest[i] == batches[i]);
                    }
                }
            }
        }
    }
}

/// A decoder takes a render batch by batch and ends exactly where the batches hold all
/// its frames in order: how the render is cut into batches does not matter.
pub proof fn streaming_decodes_like_collecting(
    batches: Seq<FrameBatch>,
    sample_rate_hz: u32,
    frame_count: u64,
)
    requires
        well_shaped(batches),
        frame_count > 0,
    ensures
        takes(batches, batches.len() as int, sample_rate_hz, frame_count) && decoding_after(
            batches,
            batches.len() as int,
            sample_rate_hz,
            frame_count,
        ).next_frame == frame_count <==> complete(batches, sample_rate_hz, frame_count),
{
    lemma_takes(batches, sample_rate_hz, frame_count);
    assert(batches.take(batches.len() as int) =~= batches);
}

/// Two renders with the same rows are both complete or neither is, and give the same
/// samples, wherever their batches begin and end.
pub proof fn cutting_does_not_matter(
    one: Seq<FrameBatch>,
    other: Seq<FrameBatch>,
    sample_rate_hz: u32,
    frame_count: u64,
)
    requires
        forall|i: int| 0 <= i < one.len() ==> is_frame_batch(#[trigger] one[i], sample_rate_hz),
        forall|i: int| 0 <= i < other.len() ==> is_frame_batch(#[trigger] other[i], sample_rate_hz),
        joined_frames(one) == joined_frames(other),
        joined_samples(one) == joined_samples(other),
    ensures
        complete(one, sample_rate_hz, frame_count) == complete(other, sample_rate_hz, frame_count),
        sample_values(joined_samples(one)) == sample_values(joined_samples(other)),
{
}

/// The first batches hold the first rows.
proof fn lemma_joined_prefix(batches: Seq<FrameBatch>, count: int)
    requires
        0 <= count <= batches.len(),
    ensures
        joined_frames(batches.take(count)).is_prefix_of(joined_frames(batches)),
        joined_samples(batches.take(count)).is_prefix_of(joined_samples(batches)),
    decreases batches.len(),
{
    if count == batches.len() {
        assert(batches.take(count) =~= batches);
        assert(joined_frames(batches) =~= joined_frames(batches).subrange(
            0,
            joined_frames(batches).len() as int,
        ));
    } else {
        let rest = batches.drop_last();
        lemma_joined_prefix(rest, count);
        assert(rest.take(count) =~= batches.take(count));
    }
}

/// One more batch with a cell for every row keeps the shape.
proof fn lemma_shape_goes_on(batches: Seq<FrameBatch>, index: int)
    requires
        0 <= index < batches.len(),
        well_shaped(batches.take(index)),
        batch_frames(batches[index]).len() == batch_samples(batches[index]).len(),
    ensures
        well_shaped(batches.take(index + 1)),
{
    let taken = batches.take(index + 1);
    assert forall|i: int| 0 <= i < taken.len() implies batch_frames(#[trigger] taken[i]).len()
        == batch_samples(taken[i]).len() by {
        if i < index {
            assert(taken[i] == batches.take(index)[i]);
        }
    }
}

/// What one more batch adds.
proof fn lemma_take_one(batches: Seq<FrameBatch>, index: int)
    requires
        0 <= index < batches.len(),
    ensures
        joined_frames(batches.take(index + 1)) == joined_frames(batches.take(index))
            + batch_frames(batches[index]),
        sample_values(joined_samples(batches.take(index + 1))) == sample_values(
            joined_samples(batches.take(index)),
        ) + sample_values(batch_samples(batches[index])),
{
    let taken = batches.take(index + 1);
    assert(taken.drop_last() =~= batches.take(index));
    assert(taken.last() == batches[index]);
    assert(sample_values(joined_samples(taken)) =~= sample_values(
        joined_samples(batches.take(index)),
    ) + sample_values(batch_samples(batches[index])));
}

/// A decoder takes every batch of a complete render.
proof fn lemma_complete_takes(
    batches: Seq<FrameBatch>,
    index: int,
    sample_rate_hz: u32,
    frame_count: u64,
)
    requires
        0 <= index < batches.len(),
        well_shaped(batches.take(index + 1)),
        complete(batches, sample_rate_hz, frame_count),
    ensures
        decoding_after(batches, index, sample_rate_hz, frame_count).accepts(batches[index]),
{
    let taken = batches.take(index + 1);
    lemma_joined_prefix(batches, index + 1);
    lemma_takes(taken, sample_rate_hz, frame_count);
    let frames = joined_frames(taken);
    let samples = joined_samples(taken);
    assert forall|i: int| 0 <= i < frames.len() implies (#[trigger] frames[i]).is_some()
        && frames[i].unwrap() == i by {
        assert(frames[i] == joined_frames(batches)[i]);
    }
    assert forall|i: int| 0 <= i < samples.len() implies (#[trigger] samples[i]).is_some()
        && samples[i].unwrap().finite() by {
        assert(samples[i] == joined_samples(batches)[i]);
    }
    assert forall|i: int| 0 <= i < taken.len() implies is_frame_batch(
        #[trigger] taken[i],
        sample_rate_hz,
    ) by {
        assert(taken[i] == batches[i]);
    }
    assert(taken.take(index) =~= batches.take(index));
    assert(decoding_after(taken, index, sample_rate_hz, frame_count).accepts(taken[index]));
}

/// Why the batches of a render are refused.
pub open spec fn render_refused(
    batches: Seq<FrameBatch>,
    sample_rate_hz: u32,
    frame_count: u64,
    reason: Seq<char>,
) -> bool {
    if frame_count > usize::MAX {
        exists|source: Seq<char>| reason == index_overflow(frame_count, source)
    } else if batches.len() == 0 {
        reason == "frame render contained no RecordBatches; first missing frame is 0"@
    } else if takes(batches, batches.len() as int, sample_rate_hz, frame_count) {
        reason == decoding_after(
            batches,
            batches.len() as int,
            sample_rate_hz,
            frame_count,
        ).early_end()
    } else {
        exists|i: int|
            0 <= i < batches.len() && takes(batches, i, sample_rate_hz, frame_count)
                && decoding_after(batches, i, sample_rate_hz, frame_count).refuses(
                #[trigger] batches[i],
                reason,
            )
    }
}

/// What is said of more frames than an index can count; the conversion's error is shown.
pub open spec fn index_overflow(frame_count: u64, source: Seq<char>) -> Seq<char> {
    "configured frame count "@ + decimal(frame_count as nat)
        + " does not fit this platform's usize frame index (maximum "@ + decimal(usize::MAX as nat)
        + "): "@ + source
}

/// Checks the batches of a whole render and gives its samples.
#[verifier::rlimit(60)]
#[verifier::spinoff_prover]
pub fn decode_from_frames(batches: &[FrameBatch], config: &RenderConfig) -> (r: Result<Vec<Single>>)
    ensures
        r.is_ok() == (config@.frame_count <= usize::MAX && complete(
            batches@,
            config@.sample_rate_hz,
            config@.frame_count,
        )),
        batches@.len() == 0 ==> r.is_err(),
        r matches Ok(samples) ==> samples@ == sample_values(joined_samples(batches@)),
        r matches Ok(samples) ==> samples@.len() == config@.frame_count,
        r matches Err(error) ==> error matches Error::InvalidRender(reason) && render_refused(
            batches@,
            config@.sample_rate_hz,
            config@.frame_count,
            reason@,
        ),
{
    let ghost rate = config@.sample_rate_hz;
    let ghost count = config@.frame_count;
    let frame_count: u64 = config.frame_count();
    match platform_index(frame_count) {
        Ok(_) => {},
        Err(source) => {
            let reason: String = "configured frame count ".to_owned().concat(
                decimal_text(frame_count).as_str(),
            ).concat(" does not fit this platform's usize frame index (maximum ").concat(
                decimal_text(usize::MAX as u64).as_str(),
            ).concat("): ").concat(source.as_str());
            assert(reason@ == index_overflow(count, source@));
            return Err(Error::InvalidRender(reason));
        },
    }
    if batches.len() == 0 {
        return Err(
            Error::InvalidRender(
                "frame render contained no RecordBatches; first missing frame is 0".to_owned(),
            ),
        );
    }
    let mut decoder: FrameDecoder = FrameDecoder::new(config);
    let mut buffer: Vec<Single> = Vec::new();
    let mut index: usize = 0;
    assert(batches@.take(0) =~= Seq::empty());
    while index < batches.len()
        invariant
            index <= batches@.len(),
            rate == config@.sample_rate_hz,
            count == config@.frame_count,
            count <= usize::MAX,
            decoder@ == decoding_after(batches@, index as int, rate, count),
            takes(batches@, index as int, rate, count),
            well_shaped(batches@.take(index as int)),
            buffer@ == sample_values(joined_samples(batches@.take(index as int))),
        decreases batches@.len() - index,
    {
        let chunk: Vec<Single> = match decoder.decode_batch(&batches[index]) {
            Ok(chunk) => chunk,
            Err(error) => {
                assert(!decoding_after(batches@, index as int, rate, count).accepts(
                    batches@[index as int],
                ));
                proof {
                    if complete(batches@, rate, count) {
                        assert(is_frame_batch(batches@[index as int], rate));
                        lemma_shape_goes_on(batches@, index as int);
                        lemma_complete_takes(batches@, index as int, rate, count);
                    }
                    if takes(batches@, batches@.len() as int, rate, count) {
                        assert(decoding_after(batches@, index as int, rate, count).accepts(
                            batches@[index as int],
                        ));
                    }
                }
                return Err(error);
            },
        };
        proof {
            lemma_shape_goes_on(batches@, index as int);
            lemma_take_one(batches@, index as int);
        }
        let mut chunk: Vec<Single> = chunk;
        buffer.append(&mut chunk);
        index += 1;
    }
    proof {
        assert(batches@.take(batches@.len() as int) =~= batches@);
        streaming_decodes_like_collecting(batches@, rate, count);
        lemma_takes(batches@, rate, count);
    }
    match decoder.finish() {
        Ok(()) => Ok(buffer),
        Err(error) => Err(error),
    }
}

} // verus!
