//! Walking several frame signals at once.
use crate::arrow::{
    batch_columns, batch_frames, batch_rows, batch_samples, frame_cells, row_count, sample_cells,
    ColumnType, FrameBatch,
};
use crate::ieee::number::Single;
use crate::physical::frame::node::{execution_error, NodeError, NodeResult};
use crate::text::{decimal, decimal_text};
use vstd::prelude::*;

verus! {

/// Where a cursor stands in its input.
pub struct Walk {
    /// The frames of the batch at hand, where it has such a column.
    pub frames: Option<Seq<Option<u64>>>,
    /// The samples of the batch at hand, where it has such a column.
    pub samples: Option<Seq<Option<Single>>>,
    /// How many rows the batch has.
    pub rows: nat,
    /// The row that comes next.
    pub row: nat,
    /// The last frame that was taken.
    pub last_frame: Option<u64>,
    /// Whether the input has ended.
    pub finished: bool,
}

impl Walk {
    /// Before anything came.
    pub open spec fn start() -> Walk {
        Walk {
            frames: None,
            samples: None,
            rows: 0,
            row: 0,
            last_frame: None,
            finished: false,
        }
    }

    /// Every column has a cell for every row.
    pub open spec fn wf(self) -> bool {
        &&& self.row <= self.rows
        &&& self.frames matches Some(frames) ==> frames.len() == self.rows
        &&& self.samples matches Some(samples) ==> samples.len() == self.rows
    }

    /// Every row was taken, and more may come.
    pub open spec fn needs_load(self) -> bool {
        !self.finished && self.row == self.rows
    }

    /// The row that comes next, or what is wrong with it.
    pub open spec fn reading(self) -> Result<Option<(u64, Single)>, Seq<char>> {
        if self.row >= self.rows {
            Ok(None)
        } else if self.frames.is_none() {
            Err("ZipCursor expected UInt64 frames"@)
        } else if self.samples.is_none() {
            Err("ZipCursor expected Float32 samples"@)
        } else {
            let frame = self.frames.unwrap()[self.row as int];
            let sample = self.samples.unwrap()[self.row as int];
            if frame.is_none() || sample.is_none() {
                Err("ZipCursor received a null frame or sample"@)
            } else if self.last_frame.is_some() && frame.unwrap() <= self.last_frame.unwrap() {
                Err(
                    "ZipCursor input frames must increase: "@ + decimal(frame.unwrap() as nat)
                        + " follows "@ + decimal(self.last_frame.unwrap() as nat),
                )
            } else {
                Ok(Some((frame.unwrap(), sample.unwrap())))
            }
        }
    }

    /// Behind the row that comes next.
    pub open spec fn advanced(self, frame: u64) -> Walk {
        Walk { row: self.row + 1, last_frame: Some(frame), ..self }
    }

    /// At the start of a batch; an empty one changes nothing.
    pub open spec fn loaded(self, batch: FrameBatch) -> Walk {
        if batch_rows(batch) == 0 {
            self
        } else {
            Walk {
                frames: if batch_columns(batch)[0].kind == Some(ColumnType::UInt64) {
                    Some(batch_frames(batch))
                } else {
                    None
                },
                samples: if batch_columns(batch)[1].kind == Some(ColumnType::Float32) {
                    Some(batch_samples(batch))
                } else {
                    None
                },
                rows: batch_rows(batch),
                row: 0,
                ..self
            }
        }
    }

    /// With nothing more to come.
    pub open spec fn ended(self) -> Walk {
        Walk {
            frames: None,
            samples: None,
            rows: 0,
            row: 0,
            finished: true,
            ..self
        }
    }

    /// The sample at this frame, where the next row is there.
    pub open spec fn sample_at(self, frame: u64) -> Option<Single> {
        match self.reading() {
            Ok(Some((next, sample))) => if next == frame {
                Some(sample)
            } else {
                None
            },
            _ => None,
        }
    }

    /// Nothing up to this frame is left to come.
    pub open spec fn past(self, frame: u64) -> bool {
        ||| self.last_frame matches Some(last) && last >= frame
        ||| self.finished && self.row == self.rows
        ||| self.row < self.rows && (self.reading() matches Ok(Some((next, _))) && next > frame)
    }
}

/// Keeps the next row of one input.
pub struct FrameBatchCursor {
    frames: Option<Vec<Option<u64>>>,
    samples: Option<Vec<Option<Single>>>,
    rows: usize,
    row: usize,
    last_frame: Option<u64>,
    finished: bool,
}

impl View for FrameBatchCursor {
    type V = Walk;

    closed spec fn view(&self) -> Walk {
        Walk {
            frames: match self.frames {
                Some(frames) => Some(frames@),
                None => None,
            },
            samples: match self.samples {
                Some(samples) => Some(samples@),
                None => None,
            },
            rows: self.rows as nat,
            row: self.row as nat,
            last_frame: self.last_frame,
            finished: self.finished,
        }
    }
}

impl FrameBatchCursor {
    /// Starts before the input's first batch.
    pub fn new() -> (cursor: FrameBatchCursor)
        ensures
            cursor@ == Walk::start(),
    {
        FrameBatchCursor {
            frames: None,
            samples: None,
            rows: 0,
            row: 0,
            last_frame: None,
            finished: false,
        }
    }

    /// Whether the input has to be asked for more.
    pub fn needs_load(&self) -> (r: bool)
        ensures
            r == self@.needs_load(),
    {
        !self.finished && self.row == self.rows
    }

    /// Takes the next batch of the input.
    pub fn load(&mut self, batch: &FrameBatch)
        requires
            batch_rows(*batch) > 0 ==> batch_columns(*batch).len() >= 2,
        ensures
            final(self)@ == old(self)@.loaded(*batch),
            old(self)@.wf() ==> final(self)@.wf(),
    {
        let rows: usize = row_count(batch);
        if rows > 0 {
            self.frames = frame_cells(batch);
            self.samples = sample_cells(batch);
            self.rows = rows;
            self.row = 0;
        }
    }

    /// Takes the end of the input.
    pub fn end(&mut self)
        ensures
            final(self)@ == old(self)@.ended(),
            final(self)@.wf(),
    {
        self.frames = None;
        self.samples = None;
        self.rows = 0;
        self.row = 0;
        self.finished = true;
    }

    /// The row that comes next.
    pub fn current(&self) -> (r: NodeResult<Option<(u64, Single)>>)
        requires
            self@.wf(),
        ensures
            r.is_ok() == self@.reading().is_ok(),
            r matches Ok(row) ==> self@.reading() == Ok::<Option<(u64, Single)>, Seq<char>>(row),
            r matches Err(error) ==> self@.reading() matches Err(reason) && execution_error(
                error,
                reason,
            ),
    {
        if self.row >= self.rows {
            return Ok(None);
        }
        let frames: &Vec<Option<u64>> = match &self.frames {
            Some(frames) => frames,
            None => {
                return Err(NodeError::Execution("ZipCursor expected UInt64 frames".to_owned()));
            },
        };
        let samples: &Vec<Option<Single>> = match &self.samples {
            Some(samples) => samples,
            None => {
                return Err(NodeError::Execution("ZipCursor expected Float32 samples".to_owned()));
            },
        };
        match (frames[self.row], samples[self.row]) {
            (Some(frame), Some(sample)) => {
                if let Some(last) = self.last_frame {
                    if frame <= last {
                        return Err(
                            NodeError::Execution(
                                "ZipCursor input frames must increase: ".to_owned().concat(
                                    decimal_text(frame).as_str(),
                                ).concat(" follows ").concat(decimal_text(last).as_str()),
                            ),
                        );
                    }
                }
                Ok(Some((frame, sample)))
            },
            _ => Err(
                NodeError::Execution("ZipCursor received a null frame or sample".to_owned()),
            ),
        }
    }

    /// Goes on behind the row that comes next.
    pub fn advance_row(&mut self, frame: u64)
        requires
            old(self)@.row < old(self)@.rows,
        ensures
            final(self)@ == old(self)@.advanced(frame),
            old(self)@.wf() ==> final(self)@.wf(),
    {
        self.last_frame = Some(frame);
        self.row = self.row + 1;
    }
}

/// What is wrong with the first faulty input from `from` on.
pub open spec fn merge_fault(inputs: Seq<Walk>, from: nat) -> Option<Seq<char>>
    decreases inputs.len() - from,
{
    if from >= inputs.len() {
        None
    } else {
        match inputs[from as int].reading() {
            Err(reason) => Some(reason),
            Ok(_) => merge_fault(inputs, from + 1),
        }
    }
}

/// The least frame that comes next in any of the first `count` inputs.
pub open spec fn least_frame(inputs: Seq<Walk>, count: nat) -> Option<u64>
    decreases count,
{
    if count == 0 {
        None
    } else {
        let before = least_frame(inputs, (count - 1) as nat);
        match inputs[count - 1].reading() {
            Ok(Some((frame, _))) => match before {
                Some(least) => if frame < least {
                    Some(frame)
                } else {
                    Some(least)
                },
                None => Some(frame),
            },
            _ => before,
        }
    }
}

/// The samples of all inputs at a frame; an input that is not there has none.
pub open spec fn aligned(inputs: Seq<Walk>, frame: u64) -> Seq<Option<Single>> {
    inputs.map_values(|input: Walk| input.sample_at(frame))
}

/// Every input behind a frame.
pub open spec fn all_advanced(inputs: Seq<Walk>, frame: u64) -> Seq<Walk> {
    inputs.map_values(
        |input: Walk|
            if input.sample_at(frame).is_some() {
                input.advanced(frame)
            } else {
                input
            },
    )
}

/// Whether some input has to be asked for more.
pub open spec fn any_needs_load(inputs: Seq<Walk>) -> bool {
    exists|i: int| 0 <= i < inputs.len() && (#[trigger] inputs[i]).needs_load()
}

/// Every column of every input has a cell for every row.
pub open spec fn all_wf(inputs: Seq<Walk>) -> bool {
    forall|i: int| 0 <= i < inputs.len() ==> (#[trigger] inputs[i]).wf()
}

/// Nothing up to this frame is left to come in any input.
pub open spec fn all_past(inputs: Seq<Walk>, frame: u64) -> bool {
    forall|i: int| 0 <= i < inputs.len() ==> (#[trigger] inputs[i]).past(frame)
}

/// Keeps one current row per input, regardless of their batch boundaries.
pub struct FrameMergeCursor {
    inputs: Vec<FrameBatchCursor>,
}

impl View for FrameMergeCursor {
    type V = Seq<Walk>;

    closed spec fn view(&self) -> Seq<Walk> {
        self.inputs@.map_values(|input: FrameBatchCursor| input@)
    }
}

impl FrameMergeCursor {
    /// Every column of every input has a cell for every row.
    #[verifier::type_invariant]
    spec fn wf(self) -> bool {
        forall|i: int| 0 <= i < self.inputs@.len() ==> (#[trigger] self.inputs@[i])@.wf()
    }

    /// Starts before the first batch of every input.
    pub fn new(inputs: usize) -> (cursor: FrameMergeCursor)
        ensures
            cursor@ == Seq::new(inputs as nat, |i: int| Walk::start()),
    {
        let mut cursors: Vec<FrameBatchCursor> = Vec::new();
        let mut i: usize = 0;
        while i < inputs
            invariant
                i <= inputs,
                cursors@.len() == i,
                forall|j: int| 0 <= j < i ==> (#[trigger] cursors@[j])@ == Walk::start(),
            decreases inputs - i,
        {
            cursors.push(FrameBatchCursor::new());
            i += 1;
        }
        let cursor: FrameMergeCursor = FrameMergeCursor { inputs: cursors };
        assert(cursor@ =~= Seq::new(inputs as nat, |i: int| Walk::start()));
        cursor
    }

    /// How many inputs there are.
    pub fn input_count(&self) -> (r: usize)
        ensures
            r == self@.len(),
    {
        self.inputs.len()
    }

    /// Whether an input has to be asked for more.
    pub fn input_needs_load(&self, index: usize) -> (r: bool)
        requires
            index < self@.len(),
        ensures
            r == self@[index as int].needs_load(),
    {
        self.inputs[index].needs_load()
    }

    /// Whether some input has to be asked for more.
    pub fn needs_load(&self) -> (r: bool)
        ensures
            r == any_needs_load(self@),
    {
        let mut i: usize = 0;
        while i < self.inputs.len()
            invariant
                i <= self.inputs@.len(),
                forall|j: int| 0 <= j < i ==> !(#[trigger] self@[j]).needs_load(),
            decreases self.inputs@.len() - i,
        {
            if self.inputs[i].needs_load() {
                assert(self@[i as int].needs_load());
                return true;
            }
            i += 1;
        }
        false
    }

    /// Takes the next batch of an input.
    pub fn load(&mut self, index: usize, batch: &FrameBatch)
        requires
            index < old(self)@.len(),
            batch_rows(*batch) > 0 ==> batch_columns(*batch).len() >= 2,
        ensures
            final(self)@ == old(self)@.update(
                index as int,
                old(self)@[index as int].loaded(*batch),
            ),
    {
        proof {
            use_type_invariant(&*self);
        }
        let ghost before = self@;
        let mut inputs: Vec<FrameBatchCursor> = Vec::new();
        std::mem::swap(&mut inputs, &mut self.inputs);
        let ghost cursors = inputs@;
        let mut cursor: FrameBatchCursor = FrameBatchCursor::new();
        std::mem::swap(&mut cursor, &mut inputs[index]);
        cursor.load(batch);
        inputs.set(index, cursor);
        std::mem::swap(&mut inputs, &mut self.inputs);
        assert(self@ =~= before.update(index as int, before[index as int].loaded(*batch)));
    }

    /// Takes the end of an input.
    pub fn end(&mut self, index: usize)
        requires
            index < old(self)@.len(),
        ensures
            final(self)@ == old(self)@.update(index as int, old(self)@[index as int].ended()),
    {
        proof {
            use_type_invariant(&*self);
        }
        let ghost before = self@;
        let mut inputs: Vec<FrameBatchCursor> = Vec::new();
        std::mem::swap(&mut inputs, &mut self.inputs);
        let mut cursor: FrameBatchCursor = FrameBatchCursor::new();
        std::mem::swap(&mut cursor, &mut inputs[index]);
        cursor.end();
        inputs.set(index, cursor);
        std::mem::swap(&mut inputs, &mut self.inputs);
        assert(self@ =~= before.update(index as int, before[index as int].ended()));
    }

    /// Goes on to the next frame of any input and gives the samples there. Every input
    /// must have been asked for more where it had to be.
    pub fn next_frame(&mut self) -> (r: NodeResult<Option<(u64, Vec<Option<Single>>)>>)
        ensures
            r.is_ok() == merge_fault(old(self)@, 0).is_none(),
            r matches Ok(Some((frame, samples))) ==> {
                &&& least_frame(old(self)@, old(self)@.len()) == Some(frame)
                &&& samples@ == aligned(old(self)@, frame)
                &&& final(self)@ == all_advanced(old(self)@, frame)
            },
            r matches Ok(None) ==> {
                &&& least_frame(old(self)@, old(self)@.len()).is_none()
                &&& final(self)@ == old(self)@
            },
            r matches Err(error) ==> {
                &&& merge_fault(old(self)@, 0) matches Some(reason) && execution_error(
                    error,
                    reason,
                )
                &&& final(self)@ == old(self)@
            },
    {
        proof {
            use_type_invariant(&*self);
        }
        let ghost before = self@;
        let mut least: Option<u64> = None;
        let mut i: usize = 0;
        while i < self.inputs.len()
            invariant
                i <= self.inputs@.len(),
                before == self@,
                forall|j: int| 0 <= j < self.inputs@.len() ==> (#[trigger] self.inputs@[j])@.wf(),
                least == least_frame(before, i as nat),
                merge_fault(before, 0) == merge_fault(before, i as nat),
            decreases self.inputs@.len() - i,
        {
            assert(before[i as int] == self.inputs@[i as int]@);
            match self.inputs[i].current() {
                Err(error) => {
                    return Err(error);
                },
                Ok(None) => {},
                Ok(Some((frame, _))) => {
                    least = match least {
                        Some(current) => if frame < current {
                            Some(frame)
                        } else {
                            Some(current)
                        },
                        None => Some(frame),
                    };
                },
            }
            i += 1;
        }
        let frame: u64 = match least {
            Some(frame) => frame,
            None => {
                return Ok(None);
            },
        };
        let mut inputs: Vec<FrameBatchCursor> = Vec::new();
        std::mem::swap(&mut inputs, &mut self.inputs);
        let ghost cursors = inputs@;
        let mut samples: Vec<Option<Single>> = Vec::new();
        let mut next: usize = 0;
        proof {
            lemma_no_fault(before, 0);
        }
        while next < inputs.len()
            invariant
                next <= inputs@.len() == cursors.len() == before.len(),
                forall|j: int| 0 <= j < cursors.len() ==> (#[trigger] cursors[j])@.wf(),
                forall|j: int| 0 <= j < cursors.len() ==> (#[trigger] cursors[j])@ == before[j],
                forall|j: int|
                    0 <= j < before.len() ==> (#[trigger] before[j]).reading().is_ok(),
                forall|j: int| next <= j < inputs@.len() ==> #[trigger] inputs@[j] == cursors[j],
                forall|j: int| 0 <= j < next ==> (#[trigger] inputs@[j])@.wf(),
                forall|j: int|
                    0 <= j < next ==> (#[trigger] inputs@[j])@ == all_advanced(before, frame)[j],
                samples@ == aligned(before, frame).take(next as int),
            decreases inputs@.len() - next,
        {
            assert(inputs@[next as int] == cursors[next as int]);
            assert(cursors[next as int]@ == before[next as int]);
            assert(before[next as int].reading().is_ok());
            let here: Option<Single> = match inputs[next].current() {
                Ok(Some((input_frame, sample))) => {
                    if input_frame == frame {
                        Some(sample)
                    } else {
                        None
                    }
                },
                _ => None,
            };
            assert(here == before[next as int].sample_at(frame));
            if here.is_some() {
                let mut cursor: FrameBatchCursor = FrameBatchCursor::new();
                std::mem::swap(&mut cursor, &mut inputs[next]);
                cursor.advance_row(frame);
                inputs.set(next, cursor);
            }
            samples.push(here);
            assert(samples@ =~= aligned(before, frame).take(next + 1));
            next += 1;
        }
        std::mem::swap(&mut inputs, &mut self.inputs);
        assert(self@ =~= all_advanced(before, frame));
        assert(samples@ =~= aligned(before, frame));
        Ok(Some((frame, samples)))
    }
}

/// Without a fault every input can be read.
proof fn lemma_no_fault(inputs: Seq<Walk>, from: nat)
    requires
        merge_fault(inputs, from).is_none(),
    ensures
        forall|i: int| from <= i < inputs.len() ==> (#[trigger] inputs[i]).reading().is_ok(),
    decreases inputs.len() - from,
{
    if from < inputs.len() {
        lemma_no_fault(inputs, from + 1);
    }
}

/// The least frame is one of the next frames, and none is below it.
pub proof fn lemma_least_frame(inputs: Seq<Walk>, count: nat)
    requires
        count <= inputs.len(),
    ensures
        least_frame(inputs, count) matches Some(frame) ==> (exists|i: int|
            0 <= i < count && (#[trigger] inputs[i]).sample_at(frame).is_some()),
        least_frame(inputs, count) matches Some(frame) ==> forall|i: int|
            0 <= i < count ==> ((#[trigger] inputs[i]).reading() matches Ok(Some((next, _)))
                ==> frame <= next),
        least_frame(inputs, count).is_none() ==> forall|i: int|
            0 <= i < count ==> !((#[trigger] inputs[i]).reading() matches Ok(Some(_))),
    decreases count,
{
    if count > 0 {
        lemma_least_frame(inputs, (count - 1) as nat);
        let least = least_frame(inputs, count);
        if least.is_some() {
            let frame = least.unwrap();
            if inputs[count - 1].sample_at(frame).is_some() {
            } else {
                assert(least_frame(inputs, (count - 1) as nat) == Some(frame));
            }
        }
    }
}

/// Frames come in order: once a frame was taken, every frame that follows is above it.
pub proof fn merged_frames_increase(inputs: Seq<Walk>, frame: u64)
    requires
        all_past(inputs, frame),
        merge_fault(inputs, 0).is_none(),
    ensures
        least_frame(inputs, inputs.len()) matches Some(next) ==> next > frame,
{
    lemma_least_frame(inputs, inputs.len());
    lemma_no_fault(inputs, 0);
    if least_frame(inputs, inputs.len()).is_some() {
        let next = least_frame(inputs, inputs.len()).unwrap();
        let i = choose|i: int|
            0 <= i < inputs.len() && (#[trigger] inputs[i]).sample_at(next).is_some();
        assert(inputs[i].past(frame));
    }
}

/// Taking a frame leaves nothing behind up to it, if every input was asked for more
/// where it had to be.
pub proof fn taking_a_frame_passes_it(inputs: Seq<Walk>, frame: u64)
    requires
        all_wf(inputs),
        !any_needs_load(inputs),
        merge_fault(inputs, 0).is_none(),
        least_frame(inputs, inputs.len()) == Some(frame),
    ensures
        all_past(all_advanced(inputs, frame), frame),
        all_wf(all_advanced(inputs, frame)),
{
    lemma_least_frame(inputs, inputs.len());
    lemma_no_fault(inputs, 0);
    let after = all_advanced(inputs, frame);
    assert forall|i: int| 0 <= i < after.len() implies (#[trigger] after[i]).past(frame)
        && after[i].wf() by {
        let input = inputs[i];
        assert(input.wf());
        assert(input.reading().is_ok());
        assert(!input.needs_load());
        if input.sample_at(frame).is_some() {
            assert(after[i] == input.advanced(frame));
        } else {
            assert(after[i] == input);
        }
    }
}

/// What comes in later does not go back behind a frame that was taken, unless it is
/// refused.
pub proof fn loading_keeps_the_order(input: Walk, batch: FrameBatch, frame: u64)
    requires
        input.past(frame),
        input.needs_load(),
    ensures
        input.loaded(batch).past(frame),
        input.ended().past(frame),
{
}

/// The signals have ended exactly where nothing is left to read once every input was
/// asked for more: only then is the mix over.
pub proof fn merge_ends_with_its_last_input(inputs: Seq<Walk>)
    requires
        all_wf(inputs),
        !any_needs_load(inputs),
        merge_fault(inputs, 0).is_none(),
    ensures
        least_frame(inputs, inputs.len()).is_none() <==> forall|i: int|
            0 <= i < inputs.len() ==> (#[trigger] inputs[i]).finished && inputs[i].row
                == inputs[i].rows,
{
    lemma_least_frame(inputs, inputs.len());
    lemma_no_fault(inputs, 0);
    if least_frame(inputs, inputs.len()).is_none() {
        assert forall|i: int| 0 <= i < inputs.len() implies (#[trigger] inputs[i]).finished
            && inputs[i].row == inputs[i].rows by {
            assert(inputs[i].reading().is_ok());
            assert(inputs[i].wf());
            assert(!inputs[i].needs_load());
        }
    }
}

/// An input that has ended has no sample at any frame.
pub proof fn ended_input_is_silent(inputs: Seq<Walk>, index: int, frame: u64)
    requires
        0 <= index < inputs.len(),
        inputs[index].finished,
        inputs[index].row == inputs[index].rows,
    ensures
        aligned(inputs, frame)[index].is_none(),
        all_advanced(inputs, frame)[index] == inputs[index],
{
}

} // verus!
