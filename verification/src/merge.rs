use vstd::prelude::*;
use crate::decimal::decimal_value;
use crate::discovery::{
    lemma_discovery_recovers_order, lists_chunks, name_keys, stable_order,
};
use crate::error::ChunkError;
use crate::naming::{chunk_name, digits_in};
use crate::plan::{
    chunk_count, chunk_end, chunk_start, lemma_chunk_count_is_ceiling, lemma_ranges_exact,
    range_at,
};
use crate::split::split_chunks;
use crate::wave::{lemma_step_keeps_bound, ScheduleState, WaveAction, WaveSchedule};

verus! {

/// Merges chunks into one buffer: their bytes, one chunk after another in
/// the order given.
pub fn merge_bytes(chunks: &Vec<Vec<u8>>) -> (merged: Vec<u8>)
    ensures
        merged@ == chunks.deep_view().flatten(),
{
    let mut merged: Vec<u8> = Vec::new();
    let mut index: usize = 0;
    while index < chunks.len()
        invariant
            index <= chunks.len(),
            merged@ == chunks.deep_view().take(index as int).flatten(),
        decreases chunks.len() - index,
    {
        merged.extend_from_slice(chunks[index].as_slice());
        proof {
            let views = chunks.deep_view();
            views.take(index as int).lemma_flatten_push(views[index as int]);
            assert(views.take(index as int + 1) =~= views.take(index as int).push(
                views[index as int],
            ));
        }
        index = index + 1;
    }
    assert(chunks.deep_view().take(index as int) =~= chunks.deep_view());
    merged
}

/// The first `count` bytes of `data`, or all of it where it is shorter.
pub open spec fn head(data: Seq<u8>, count: nat) -> Seq<u8> {
    if count <= data.len() {
        data.take(count as int)
    } else {
        data
    }
}

/// The first `count` chunks of a buffer, one after another, are the bytes
/// of the buffer up to the end of the last of them.
pub proof fn lemma_chunks_are_prefix(data: Seq<u8>, chunk_size: nat, count: nat)
    requires
        chunk_size > 0,
        count <= chunk_count(data.len(), chunk_size),
    ensures
        split_chunks(data, chunk_size).take(count as int).flatten() == head(
            data,
            count * chunk_size,
        ),
    decreases count,
{
    let chunks = split_chunks(data, chunk_size);
    if count == 0 {
        assert(chunks.take(0) =~= Seq::<Seq<u8>>::empty());
        assert(head(data, 0) =~= Seq::<u8>::empty());
    } else {
        let index = (count - 1) as nat;
        lemma_chunks_are_prefix(data, chunk_size, index);
        lemma_chunk_count_is_ceiling(data.len(), chunk_size);
        assert(chunks.take(count as int) =~= chunks.take(index as int).push(chunks[index as int]));
        chunks.take(index as int).lemma_flatten_push(chunks[index as int]);
        assert(count * chunk_size == index * chunk_size + chunk_size) by (nonlinear_arith)
            requires
                count == index + 1,
        ;
        assert(index * chunk_size < data.len()) by (nonlinear_arith)
            requires
                index <= chunk_count(data.len(), chunk_size) - 1,
                (chunk_count(data.len(), chunk_size) - 1) * chunk_size < data.len(),
                chunk_size > 0,
        ;
        assert(head(data, index * chunk_size) + chunks[index as int] =~= head(
            data,
            count * chunk_size,
        ));
    }
}

/// Splitting a buffer and merging the chunks gives the buffer back, byte
/// for byte, whatever its length and whatever the chunk size.
pub proof fn lemma_split_merge_round_trip(data: Seq<u8>, chunk_size: nat)
    requires
        chunk_size >= 1,
    ensures
        split_chunks(data, chunk_size).flatten() == data,
{
    let chunks = split_chunks(data, chunk_size);
    let count = chunk_count(data.len(), chunk_size);
    lemma_chunks_are_prefix(data, chunk_size, count);
    lemma_chunk_count_is_ceiling(data.len(), chunk_size);
    assert(chunks.take(count as int) =~= chunks);
    assert(head(data, count * chunk_size) =~= data);
}

/// The contents of files in the order `order`.
pub open spec fn contents_in_order(contents: Seq<Seq<u8>>, order: Seq<usize>) -> Seq<Seq<u8>> {
    Seq::new(order.len(), |i: int| contents[order[i] as int])
}

/// A file that is split into chunk files, found again in a directory that
/// lists them in whatever order, and merged in the order of their keys,
/// comes out as it went in, byte for byte. This holds as long as the digits
/// of the last chunk file's name write a number within 64 bits; beyond that
/// the keys no longer tell the chunks apart.
pub proof fn lemma_split_discover_merge_round_trip(
    data: Seq<u8>,
    chunk_size: nat,
    stem: Seq<char>,
    extension: Seq<char>,
    listing: Seq<String>,
    contents: Seq<Seq<u8>>,
    position_of: Seq<usize>,
)
    requires
        chunk_size >= 1,
        listing.len() == chunk_count(data.len(), chunk_size),
        contents.len() == listing.len(),
        lists_chunks(listing, stem, extension, position_of),
        forall|k: int|
            0 <= k < listing.len() ==> contents[(#[trigger] position_of[k]) as int]
                == split_chunks(data, chunk_size)[k],
        listing.len() > 0 ==> decimal_value(
            digits_in(chunk_name(stem, (listing.len() - 1) as nat, extension)),
        ) <= u64::MAX,
    ensures
        contents_in_order(contents, stable_order(name_keys(listing))).flatten() == data,
{
    lemma_discovery_recovers_order(listing, stem, extension, position_of);
    lemma_split_merge_round_trip(data, chunk_size);
    assert(contents_in_order(contents, position_of) =~= split_chunks(data, chunk_size));
}

/// The sum of the sizes.
pub open spec fn total_len(sizes: Seq<u64>) -> nat
    decreases sizes.len(),
{
    if sizes.len() == 0 {
        0
    } else {
        total_len(sizes.drop_last()) + sizes.last() as nat
    }
}

/// The offset in the merged output at which chunk `index` begins: the sum
/// of the sizes of the chunks before it.
pub open spec fn offset_of(sizes: Seq<u64>, index: nat) -> nat {
    total_len(sizes.take(index as int))
}

/// The sum of the first sizes grows with their number.
pub proof fn lemma_offsets_grow(sizes: Seq<u64>, i: nat, j: nat)
    requires
        i <= j <= sizes.len(),
    ensures
        offset_of(sizes, i) <= offset_of(sizes, j) <= total_len(sizes),
        j < sizes.len() ==> offset_of(sizes, j + 1) == offset_of(sizes, j) + sizes[j as int],
        offset_of(sizes, 0) == 0,
        offset_of(sizes, sizes.len()) == total_len(sizes),
    decreases sizes.len() - i,
{
    assert(sizes.take(sizes.len() as int) =~= sizes);
    if j < sizes.len() {
        assert(sizes.take(j as int + 1).drop_last() =~= sizes.take(j as int));
        lemma_offsets_grow(sizes, (j + 1) as nat, sizes.len());
    }
    if i < j {
        assert(sizes.take(i as int + 1).drop_last() =~= sizes.take(i as int));
        lemma_offsets_grow(sizes, (i + 1) as nat, j);
    }
}

/// The sizes of the chunks, in order.
pub open spec fn sizes_of(chunks: Seq<Seq<u8>>) -> Seq<u64> {
    Seq::new(chunks.len(), |i: int| chunks[i].len() as u64)
}

/// The merged output is as long as the chunks together, and it holds each
/// chunk at the chunk's offset, in whatever order the chunks were written
/// there.
pub proof fn lemma_merged_holds_chunk_at_offset(chunks: Seq<Seq<u8>>, index: nat)
    requires
        index < chunks.len(),
        forall|i: int| 0 <= i < chunks.len() ==> (#[trigger] chunks[i]).len() <= u64::MAX,
    ensures
        chunks.flatten().len() == total_len(sizes_of(chunks)),
        offset_of(sizes_of(chunks), index) + chunks[index as int].len() <= chunks.flatten().len(),
        chunks.flatten().subrange(
            offset_of(sizes_of(chunks), index) as int,
            (offset_of(sizes_of(chunks), index) + chunks[index as int].len()) as int,
        ) == chunks[index as int],
    decreases chunks.len(),
{
    let front = chunks.drop_last();
    let sizes = sizes_of(chunks);
    let at = offset_of(sizes, index) as int;
    let len = chunks[index as int].len() as int;
    assert(chunks =~= front.push(chunks.last()));
    front.lemma_flatten_push(chunks.last());
    assert(sizes.drop_last() =~= sizes_of(front));
    lemma_flattened_len(front);
    if index + 1 < chunks.len() {
        lemma_merged_holds_chunk_at_offset(front, index);
        assert(sizes.take(index as int) =~= sizes_of(front).take(index as int));
        assert(chunks.flatten().subrange(at, at + len) =~= front.flatten().subrange(
            at,
            at + len,
        ));
    } else {
        assert(sizes.take(index as int) =~= sizes_of(front));
        assert(chunks.flatten().subrange(at, at + len) =~= chunks.last());
    }
}

/// Chunks put one after another are as long as their sizes together.
proof fn lemma_flattened_len(chunks: Seq<Seq<u8>>)
    requires
        forall|i: int| 0 <= i < chunks.len() ==> (#[trigger] chunks[i]).len() <= u64::MAX,
    ensures
        chunks.flatten().len() == total_len(sizes_of(chunks)),
    decreases chunks.len(),
{
    if chunks.len() > 0 {
        let front = chunks.drop_last();
        assert(chunks =~= front.push(chunks.last()));
        front.lemma_flatten_push(chunks.last());
        assert(sizes_of(chunks).drop_last() =~= sizes_of(front));
        lemma_flattened_len(front);
    }
}

/// The sizes of the chunks that a split makes, in order.
pub open spec fn planned_sizes(file_size: nat, chunk_size: nat) -> Seq<u64> {
    Seq::new(
        chunk_count(file_size, chunk_size),
        |i: int| range_at(file_size, chunk_size, i as nat).byte_count() as u64,
    )
}

/// Merging the chunks of a split writes each chunk at the offset from which
/// the split read it, and the merged output is as long as the file was.
pub proof fn lemma_merge_offsets_match_plan(file_size: u64, chunk_size: u64, index: nat)
    requires
        chunk_size > 0,
        index <= chunk_count(file_size as nat, chunk_size as nat),
    ensures
        index < chunk_count(file_size as nat, chunk_size as nat) ==> offset_of(
            planned_sizes(file_size as nat, chunk_size as nat),
            index,
        ) == range_at(file_size as nat, chunk_size as nat, index).byte_start,
        index == chunk_count(file_size as nat, chunk_size as nat) ==> offset_of(
            planned_sizes(file_size as nat, chunk_size as nat),
            index,
        ) == file_size,
        total_len(planned_sizes(file_size as nat, chunk_size as nat)) == file_size,
{
    let n = file_size as nat;
    let s = chunk_size as nat;
    let sizes = planned_sizes(n, s);
    let count = chunk_count(n, s);
    lemma_offsets_up_to(file_size, chunk_size, index);
    lemma_offsets_up_to(file_size, chunk_size, count);
    lemma_offsets_grow(sizes, count, count);
    lemma_chunk_count_is_ceiling(n, s);
    if index < count {
        lemma_ranges_exact(file_size, chunk_size, index);
    }
}

/// The chunks before chunk `index` hold the bytes before its start; all
/// chunks together hold the file.
proof fn lemma_offsets_up_to(file_size: u64, chunk_size: u64, index: nat)
    requires
        chunk_size > 0,
        index <= chunk_count(file_size as nat, chunk_size as nat),
    ensures
        offset_of(planned_sizes(file_size as nat, chunk_size as nat), index) == if index
            < chunk_count(file_size as nat, chunk_size as nat) {
            chunk_start(chunk_size as nat, index)
        } else {
            file_size as nat
        },
    decreases index,
{
    let n = file_size as nat;
    let s = chunk_size as nat;
    let sizes = planned_sizes(n, s);
    let count = chunk_count(n, s);
    lemma_offsets_grow(sizes, 0, 0);
    lemma_chunk_count_is_ceiling(n, s);
    if index > 0 {
        let before = (index - 1) as nat;
        lemma_offsets_up_to(file_size, chunk_size, before);
        lemma_offsets_grow(sizes, before, before);
        lemma_ranges_exact(file_size, chunk_size, before);
        assert(chunk_start(s, index) == chunk_start(s, before) + s) by (nonlinear_arith)
            requires
                index == before + 1,
        ;
        if index < count {
            lemma_ranges_exact(file_size, chunk_size, index);
        }
    }
}

/// One unit of a merge: read the whole of chunk `index`, `len` bytes, and
/// write it to the output at `offset`.
#[derive(Clone, Copy, Debug, PartialEq, Eq, Structural)]
pub struct MergeTask {
    pub index: usize,
    pub offset: u64,
    pub len: u64,
}

/// What a merge asks of its driver.
#[derive(Debug)]
pub enum MergeAction {
    /// Read these chunks at the same time and wait for all of them; write
    /// what was read to the output in the order of the units, each at its
    /// offset; each chunk that is done counts as one unit of progress. Then
    /// report one outcome for each, in order.
    Launch(Vec<MergeTask>),
    /// The merge is complete: `chunks` chunks make an output of `bytes`
    /// bytes.
    Finish { chunks: usize, bytes: u64 },
    /// The merge failed at chunk `index` with `error`.
    Abort { index: usize, error: ChunkError },
}

/// What a merge asks of its driver, as plain values.
pub enum MergeActionView {
    Launch(Seq<MergeTask>),
    Finish { chunks: nat, bytes: nat },
    Abort { index: nat, error: ChunkError },
}

impl View for MergeAction {
    type V = MergeActionView;

    open spec fn view(&self) -> MergeActionView {
        match *self {
            MergeAction::Launch(tasks) => MergeActionView::Launch(tasks@),
            MergeAction::Finish { chunks, bytes } => MergeActionView::Finish {
                chunks: chunks as nat,
                bytes: bytes as nat,
            },
            MergeAction::Abort { index, error } => MergeActionView::Abort {
                index: index as nat,
                error,
            },
        }
    }
}

/// The state of a merge as plain values.
pub struct MergeState {
    /// The size of each chunk, in the order in which the chunks are merged.
    pub sizes: Seq<u64>,
    pub schedule: ScheduleState,
}

impl MergeState {
    /// The state of a merge before its first step.
    pub open spec fn initial(sizes: Seq<u64>, concurrency: nat) -> MergeState {
        MergeState { sizes, schedule: ScheduleState::initial(sizes.len(), concurrency) }
    }

    /// What holds of every state that a merge reaches.
    pub open spec fn wf(self) -> bool {
        &&& self.schedule.wf()
        &&& self.schedule.total == self.sizes.len()
        &&& self.sizes.len() <= usize::MAX
        &&& total_len(self.sizes) <= u64::MAX
    }

    /// The unit for chunk `index`.
    pub open spec fn task(self, index: nat) -> MergeTask {
        MergeTask {
            index: index as usize,
            offset: offset_of(self.sizes, index) as u64,
            len: self.sizes[index as int],
        }
    }

    /// The units for the chunks `first` up to but not including `last`.
    pub open spec fn tasks(self, first: nat, last: nat) -> Seq<MergeTask> {
        Seq::new((last - first) as nat, |k: int| self.task((first + k) as nat))
    }

    /// The state that follows when the units in flight report `report`.
    pub open spec fn step(self, report: Seq<Option<ChunkError>>) -> MergeState {
        MergeState { schedule: self.schedule.step(report), ..self }
    }

    /// What the driver is asked to do when the units in flight report
    /// `report`.
    pub open spec fn action(self, report: Seq<Option<ChunkError>>) -> MergeActionView {
        match self.schedule.action(report) {
            WaveAction::Launch { first, last } => MergeActionView::Launch(
                self.tasks(first as nat, last as nat),
            ),
            WaveAction::Finish => MergeActionView::Finish {
                chunks: self.sizes.len(),
                bytes: total_len(self.sizes),
            },
            WaveAction::Abort { index, error } => MergeActionView::Abort {
                index: index as nat,
                error,
            },
        }
    }
}

/// The decisions of a merge. The driver calls `step` with an empty report,
/// does what the action says, and calls `step` again with the outcomes,
/// until the action is `Finish` or `Abort`.
#[derive(Debug)]
pub struct MergeJob {
    sizes: Vec<u64>,
    offsets: Vec<u64>,
    schedule: WaveSchedule,
}

impl View for MergeJob {
    type V = MergeState;

    closed spec fn view(&self) -> MergeState {
        MergeState { sizes: self.sizes@, schedule: self.schedule@ }
    }
}

impl MergeJob {
    #[verifier::type_invariant]
    spec fn well_formed(&self) -> bool {
        &&& self@.wf()
        &&& self.offsets@.len() == self.sizes@.len() + 1
        &&& forall|i: int|
            0 <= i <= self.sizes@.len() ==> #[trigger] self.offsets@[i] == offset_of(
                self.sizes@,
                i as nat,
            )
    }

    /// Prepares the merge of chunks of the given sizes, in the order given,
    /// with at most `concurrency` reads at a time. Sizes whose sum is beyond
    /// 64 bits are refused: no file holds that many bytes.
    pub fn new(sizes: Vec<u64>, concurrency: usize) -> (result: Result<MergeJob, ChunkError>)
        requires
            concurrency >= 1,
        ensures
            total_len(sizes@) > u64::MAX ==> result == Err::<MergeJob, ChunkError>(
                ChunkError::InvalidArgument,
            ),
            total_len(sizes@) <= u64::MAX ==> result is Ok,
            result matches Ok(job) ==> job@ == MergeState::initial(sizes@, concurrency as nat)
                && job@.wf(),
    {
        let count: usize = sizes.len();
        let mut offsets: Vec<u64> = Vec::new();
        let mut total: u64 = 0;
        offsets.push(total);
        let mut index: usize = 0;
        proof {
            lemma_offsets_grow(sizes@, 0, 0);
        }
        while index < count
            invariant
                index <= count,
                count == sizes@.len(),
                total == offset_of(sizes@, index as nat),
                offsets@.len() == index + 1,
                forall|i: int|
                    0 <= i <= index ==> #[trigger] offsets@[i] == offset_of(sizes@, i as nat),
            decreases count - index,
        {
            proof {
                lemma_offsets_grow(sizes@, index as nat, index as nat);
                lemma_offsets_grow(sizes@, index as nat + 1, count as nat);
            }
            let size: u64 = sizes[index];
            if size > u64::MAX - total {
                return Err(ChunkError::InvalidArgument);
            }
            total = total + size;
            offsets.push(total);
            index = index + 1;
        }
        proof {
            lemma_offsets_grow(sizes@, count as nat, count as nat);
        }
        let schedule = WaveSchedule::new(count as u64, concurrency);
        Ok(MergeJob { sizes, offsets, schedule })
    }

    /// The number of bytes of the merged output: the sum of the chunk sizes.
    pub fn output_size(&self) -> (bytes: u64)
        ensures
            bytes == total_len(self@.sizes),
            self@.wf(),
    {
        proof {
            use_type_invariant(self);
            lemma_offsets_grow(self.sizes@, 0, 0);
        }
        self.offsets[self.sizes.len()]
    }

    /// The number of chunks to merge.
    pub fn chunk_count(&self) -> (count: usize)
        ensures
            count == self@.sizes.len(),
            self@.wf(),
    {
        proof {
            use_type_invariant(self);
        }
        self.sizes.len()
    }

    /// The number of units whose report the next `step` expects.
    pub fn in_flight(&self) -> (count: u64)
        ensures
            count == self@.schedule.in_flight,
            self@.wf(),
    {
        proof {
            use_type_invariant(self);
        }
        self.schedule.in_flight()
    }

    /// Takes the report of the units in flight, one outcome for each in
    /// order (none before the first wave), and says what to do next.
    pub fn step(&mut self, report: &Vec<Option<ChunkError>>) -> (action: MergeAction)
        requires
            report@.len() == old(self)@.schedule.in_flight,
        ensures
            final(self)@ == old(self)@.step(report@),
            action@ == old(self)@.action(report@),
            final(self)@.wf(),
    {
        proof {
            use_type_invariant(&*self);
            lemma_step_keeps_bound(self@.schedule, report@);
            lemma_offsets_grow(self.sizes@, 0, 0);
        }
        let ghost state = self@;
        let mut schedule = self.schedule;
        let next = schedule.step(report);
        self.schedule = schedule;
        match next {
            WaveAction::Launch { first, last } => {
                let mut tasks: Vec<MergeTask> = Vec::new();
                let mut index: usize = first as usize;
                while index < last as usize
                    invariant
                        first <= index <= last,
                        state.wf(),
                        last <= state.sizes.len(),
                        self.sizes@ == state.sizes,
                        self.offsets@.len() == self.sizes@.len() + 1,
                        forall|i: int|
                            0 <= i <= self.sizes@.len() ==> #[trigger] self.offsets@[i]
                                == offset_of(self.sizes@, i as nat),
                        tasks@ == state.tasks(first as nat, index as nat),
                    decreases last - index,
                {
                    let task = MergeTask {
                        index,
                        offset: self.offsets[index],
                        len: self.sizes[index],
                    };
                    tasks.push(task);
                    index = index + 1;
                }
                MergeAction::Launch(tasks)
            },
            WaveAction::Finish => MergeAction::Finish {
                chunks: self.sizes.len(),
                bytes: self.offsets[self.sizes.len()],
            },
            WaveAction::Abort { index, error } => MergeAction::Abort {
                index: index as usize,
                error,
            },
        }
    }
}

} // verus!
