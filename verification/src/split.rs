use vstd::prelude::*;
use vstd::slice::{slice_subrange, slice_to_vec};
use crate::error::ChunkError;
use crate::naming::{
    chunk_file_name, chunk_name, extension_of, has_stem_and_extension, split_file_name, stem_of,
};
use crate::plan::{
    chunk_count, chunk_end, chunk_start, lemma_chunk_count_is_ceiling, lemma_ranges_exact, plan,
    planned_ranges, range_at, ChunkPlan, ChunkRange,
};
use crate::wave::{lemma_step_keeps_bound, ScheduleState, WaveAction, WaveSchedule};

verus! {

/// The bytes of `data` that lie in `range`.
pub open spec fn range_bytes(data: Seq<u8>, range: ChunkRange) -> Seq<u8> {
    data.subrange(range.byte_start as int, range.byte_end as int)
}

/// Copies the bytes of `range` out of `source`. A range that ends before it
/// begins is refused, and a source that ends before the range does is short.
pub fn read_range(source: &[u8], range: ChunkRange) -> (result: Result<Vec<u8>, ChunkError>)
    ensures
        range.byte_start > range.byte_end ==> result == Err::<Vec<u8>, ChunkError>(
            ChunkError::InvalidArgument,
        ),
        range.byte_start <= range.byte_end && range.byte_end > source@.len() ==> result == Err::<
            Vec<u8>,
            ChunkError,
        >(ChunkError::UnexpectedEof),
        range.byte_start <= range.byte_end <= source@.len() ==> result is Ok,
        result matches Ok(bytes) ==> bytes@ == range_bytes(source@, range),
{
    if range.byte_start > range.byte_end {
        return Err(ChunkError::InvalidArgument);
    }
    if range.byte_end > source.len() as u64 {
        return Err(ChunkError::UnexpectedEof);
    }
    let part = slice_subrange(source, range.byte_start as usize, range.byte_end as usize);
    Ok(slice_to_vec(part))
}

/// The chunks of `data` for chunks of `chunk_size` bytes: the bytes of each
/// planned range, in order.
pub open spec fn split_chunks(data: Seq<u8>, chunk_size: nat) -> Seq<Seq<u8>> {
    Seq::new(
        chunk_count(data.len(), chunk_size),
        |i: int|
            data.subrange(
                chunk_start(chunk_size, i as nat) as int,
                chunk_end(data.len(), chunk_size, i as nat) as int,
            ),
    )
}

/// Each chunk of a buffer holds the bytes of its planned range.
pub proof fn lemma_chunks_follow_plan(data: Seq<u8>, chunk_size: u64, index: nat)
    requires
        chunk_size > 0,
        data.len() <= u64::MAX,
        index < chunk_count(data.len(), chunk_size as nat),
    ensures
        split_chunks(data, chunk_size as nat)[index as int] == range_bytes(
            data,
            planned_ranges(data.len(), chunk_size as nat)[index as int],
        ),
        split_chunks(data, chunk_size as nat)[index as int].len() == planned_ranges(
            data.len(),
            chunk_size as nat,
        )[index as int].byte_count(),
{
    lemma_ranges_exact(data.len() as u64, chunk_size, index);
}

/// Splits a buffer into chunks of `chunk_size` bytes, the last one possibly
/// shorter. A chunk size of zero is refused; an empty buffer has no chunks.
pub fn split_bytes(data: &[u8], chunk_size: u64) -> (result: Result<Vec<Vec<u8>>, ChunkError>)
    ensures
        chunk_size == 0 ==> result == Err::<Vec<Vec<u8>>, ChunkError>(
            ChunkError::InvalidArgument,
        ),
        chunk_size > 0 ==> result is Ok,
        result matches Ok(chunks) ==> chunks.deep_view() == split_chunks(
            data@,
            chunk_size as nat,
        ),
{
    let size: u64 = data.len() as u64;
    let plan = match plan(size, chunk_size) {
        Ok(plan) => plan,
        Err(error) => {
            return Err(error);
        },
    };
    let count: u64 = plan.chunk_count();
    let mut chunks: Vec<Vec<u8>> = Vec::new();
    let mut index: u64 = 0;
    while index < count
        invariant
            index <= count,
            chunk_size > 0,
            size == data@.len(),
            data@.len() <= usize::MAX,
            count == chunk_count(size as nat, chunk_size as nat),
            plan@ == planned_ranges(size as nat, chunk_size as nat),
            plan@.len() == count,
            chunks.deep_view() == split_chunks(data@, chunk_size as nat).take(index as int),
        decreases count - index,
    {
        let range = plan.range(index);
        proof {
            lemma_ranges_exact(size, chunk_size, index as nat);
        }
        let part = slice_subrange(data, range.byte_start as usize, range.byte_end as usize);
        let chunk = slice_to_vec(part);
        assert(chunk.deep_view() =~= part@);
        chunks.push(chunk);
        index = index + 1;
        assert(split_chunks(data@, chunk_size as nat).take(index as int) =~= split_chunks(
            data@,
            chunk_size as nat,
        ).take(index as int - 1).push(part@));
    }
    Ok(chunks)
}

/// One unit of a split: the byte range to read from the source and the
/// name of the chunk file to write it to.
#[derive(Debug)]
pub struct ChunkTask {
    pub range: ChunkRange,
    pub file_name: String,
}

/// A unit of a split as plain values.
pub struct ChunkTaskView {
    pub range: ChunkRange,
    pub file_name: Seq<char>,
}

impl View for ChunkTask {
    type V = ChunkTaskView;

    open spec fn view(&self) -> ChunkTaskView {
        ChunkTaskView { range: self.range, file_name: self.file_name@ }
    }
}

/// What a split asks of its driver.
#[derive(Debug)]
pub enum SplitAction {
    /// Run these units at the same time: for each, read its range from the
    /// source and write it to its chunk file; each one that is done counts
    /// as one unit of progress. Wait for all of them, then report one
    /// outcome for each, in order.
    Launch(Vec<ChunkTask>),
    /// The split is complete and made `chunks` chunk files.
    Finish { chunks: u64 },
    /// The split failed at chunk `index` with `error`.
    Abort { index: u64, error: ChunkError },
}

/// What a split asks of its driver, as plain values.
pub enum SplitActionView {
    Launch(Seq<ChunkTaskView>),
    Finish { chunks: nat },
    Abort { index: u64, error: ChunkError },
}

impl View for SplitAction {
    type V = SplitActionView;

    open spec fn view(&self) -> SplitActionView {
        match *self {
            SplitAction::Launch(tasks) => SplitActionView::Launch(
                tasks@.map_values(|task: ChunkTask| task@),
            ),
            SplitAction::Finish { chunks } => SplitActionView::Finish { chunks: chunks as nat },
            SplitAction::Abort { index, error } => SplitActionView::Abort { index, error },
        }
    }
}

/// The state of a split as plain values.
pub struct SplitState {
    pub file_size: nat,
    pub chunk_size: nat,
    pub stem: Seq<char>,
    pub extension: Seq<char>,
    pub schedule: ScheduleState,
}

impl SplitState {
    /// The state of a split before its first step.
    pub open spec fn initial(
        file_name: Seq<char>,
        file_size: nat,
        chunk_size: nat,
        concurrency: nat,
    ) -> SplitState {
        SplitState {
            file_size,
            chunk_size,
            stem: stem_of(file_name),
            extension: extension_of(file_name),
            schedule: ScheduleState::initial(chunk_count(file_size, chunk_size), concurrency),
        }
    }

    /// What holds of every state that a split reaches.
    pub open spec fn wf(self) -> bool {
        &&& self.chunk_size > 0
        &&& self.file_size <= u64::MAX
        &&& self.chunk_size <= u64::MAX
        &&& self.schedule.wf()
        &&& self.schedule.total == chunk_count(self.file_size, self.chunk_size)
    }

    /// The unit for chunk `index`.
    pub open spec fn task(self, index: nat) -> ChunkTaskView {
        ChunkTaskView {
            range: range_at(self.file_size, self.chunk_size, index),
            file_name: chunk_name(self.stem, index, self.extension),
        }
    }

    /// The units for the chunks `first` up to but not including `last`.
    pub open spec fn tasks(self, first: nat, last: nat) -> Seq<ChunkTaskView> {
        Seq::new((last - first) as nat, |k: int| self.task((first + k) as nat))
    }

    /// The state that follows when the units in flight report `report`.
    pub open spec fn step(self, report: Seq<Option<ChunkError>>) -> SplitState {
        SplitState { schedule: self.schedule.step(report), ..self }
    }

    /// What the driver is asked to do when the units in flight report
    /// `report`.
    pub open spec fn action(self, report: Seq<Option<ChunkError>>) -> SplitActionView {
        match self.schedule.action(report) {
            WaveAction::Launch { first, last } => SplitActionView::Launch(
                self.tasks(first as nat, last as nat),
            ),
            WaveAction::Finish => SplitActionView::Finish { chunks: self.schedule.total },
            WaveAction::Abort { index, error } => SplitActionView::Abort { index, error },
        }
    }
}

/// The decisions of a split. The driver calls `step` with an empty report,
/// does what the action says, and calls `step` again with the outcomes,
/// until the action is `Finish` or `Abort`.
#[derive(Debug)]
pub struct SplitJob {
    plan: ChunkPlan,
    stem: String,
    extension: String,
    schedule: WaveSchedule,
}

impl View for SplitJob {
    type V = SplitState;

    closed spec fn view(&self) -> SplitState {
        SplitState {
            file_size: self.plan.file_size() as nat,
            chunk_size: self.plan.chunk_size() as nat,
            stem: self.stem@,
            extension: self.extension@,
            schedule: self.schedule@,
        }
    }
}

impl SplitJob {
    #[verifier::type_invariant]
    spec fn well_formed(&self) -> bool {
        self@.wf()
    }

    /// Prepares the split of the file named `file_name`, of `file_size`
    /// bytes, into chunks of `chunk_size` bytes, with at most `concurrency`
    /// units at a time. A chunk size of zero and a name without stem or
    /// extension are refused.
    pub fn new(file_name: &str, file_size: u64, chunk_size: u64, concurrency: usize) -> (result:
        Result<SplitJob, ChunkError>)
        requires
            concurrency >= 1,
        ensures
            chunk_size == 0 || !has_stem_and_extension(file_name@) ==> result == Err::<
                SplitJob,
                ChunkError,
            >(ChunkError::InvalidArgument),
            chunk_size > 0 && has_stem_and_extension(file_name@) ==> result is Ok,
            result matches Ok(job) ==> job@ == SplitState::initial(
                file_name@,
                file_size as nat,
                chunk_size as nat,
                concurrency as nat,
            ) && job@.wf(),
    {
        let parts = match split_file_name(file_name) {
            Ok(parts) => parts,
            Err(error) => {
                return Err(error);
            },
        };
        let plan = match plan(file_size, chunk_size) {
            Ok(plan) => plan,
            Err(error) => {
                return Err(error);
            },
        };
        let schedule = WaveSchedule::new(plan.chunk_count(), concurrency);
        Ok(SplitJob { plan, stem: parts.stem, extension: parts.extension, schedule })
    }

    /// The number of chunks that the split makes.
    pub fn chunk_count(&self) -> (count: u64)
        ensures
            count == chunk_count(self@.file_size, self@.chunk_size),
            count == self@.schedule.total,
            self@.wf(),
    {
        proof {
            use_type_invariant(self);
        }
        self.schedule.total()
    }

    /// The number of units whose report the next `step` expects.
    pub fn in_flight(&self) -> (count: u64)
        ensures
            count == self@.schedule.in_flight,
            self@.wf(),
    {
        proof {
            use_type_invariant(self);
        }
        self.schedule.in_flight()
    }

    /// Takes the report of the units in flight, one outcome for each in
    /// order (none before the first wave), and says what to do next.
    pub fn step(&mut self, report: &Vec<Option<ChunkError>>) -> (action: SplitAction)
        requires
            report@.len() == old(self)@.schedule.in_flight,
        ensures
            final(self)@ == old(self)@.step(report@),
            action@ == old(self)@.action(report@),
            final(self)@.wf(),
    {
        proof {
            use_type_invariant(&*self);
            lemma_step_keeps_bound(self@.schedule, report@);
        }
        let ghost state = self@;
        let mut schedule = self.schedule;
        let next = schedule.step(report);
        self.schedule = schedule;
        match next {
            WaveAction::Launch { first, last } => {
                let mut tasks: Vec<ChunkTask> = Vec::new();
                let mut index: u64 = first;
                while index < last
                    invariant
                        first <= index <= last,
                        state.wf(),
                        last <= state.schedule.total,
                        self.plan.file_size() == state.file_size,
                        self.plan.chunk_size() == state.chunk_size,
                        self.stem@ == state.stem,
                        self.extension@ == state.extension,
                        tasks@.map_values(|task: ChunkTask| task@) == state.tasks(
                            first as nat,
                            index as nat,
                        ),
                    decreases last - index,
                {
                    proof {
                        lemma_chunk_count_is_ceiling(state.file_size, state.chunk_size);
                    }
                    let range = self.plan.range(index);
                    let file_name = chunk_file_name(
                        self.stem.as_str(),
                        index,
                        self.extension.as_str(),
                    );
                    let task = ChunkTask { range, file_name };
                    tasks.push(task);
                    index = index + 1;
                    assert(state.tasks(first as nat, index as nat) =~= state.tasks(
                        first as nat,
                        (index - 1) as nat,
                    ).push(state.task((index - 1) as nat)));
                }
                SplitAction::Launch(tasks)
            },
            WaveAction::Finish => SplitAction::Finish { chunks: self.schedule.total() },
            WaveAction::Abort { index, error } => SplitAction::Abort { index, error },
        }
    }
}

} // verus!
