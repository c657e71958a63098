use vstd::prelude::*;
use crate::error::ChunkError;

verus! {

/// One planned chunk: its 0-based ordinal and the half-open byte range
/// `[byte_start, byte_end)` of the source that it holds.
#[derive(Clone, Copy, Debug, PartialEq, Eq, Structural)]
pub struct ChunkRange {
    pub index: u64,
    pub byte_start: u64,
    pub byte_end: u64,
}

impl ChunkRange {
    /// The number of bytes in the range.
    pub open spec fn byte_count(&self) -> nat {
        (self.byte_end - self.byte_start) as nat
    }

    /// The number of bytes in the range.
    pub fn len(&self) -> (len: u64)
        requires
            self.byte_start <= self.byte_end,
        ensures
            len == self.byte_count(),
    {
        self.byte_end - self.byte_start
    }
}

/// The number of chunks of `chunk_size` bytes needed for `file_size` bytes:
/// the quotient rounded up.
pub open spec fn chunk_count(file_size: nat, chunk_size: nat) -> nat
    recommends
        chunk_size > 0,
{
    ((file_size + chunk_size - 1) / (chunk_size as int)) as nat
}

/// The offset at which chunk `index` begins.
pub open spec fn chunk_start(chunk_size: nat, index: nat) -> nat {
    index * chunk_size
}

/// The offset just past the last byte of chunk `index`.
pub open spec fn chunk_end(file_size: nat, chunk_size: nat, index: nat) -> nat {
    if chunk_start(chunk_size, index) + chunk_size <= file_size {
        chunk_start(chunk_size, index) + chunk_size
    } else {
        file_size
    }
}

/// The range of chunk `index`.
pub open spec fn range_at(file_size: nat, chunk_size: nat, index: nat) -> ChunkRange {
    ChunkRange {
        index: index as u64,
        byte_start: chunk_start(chunk_size, index) as u64,
        byte_end: chunk_end(file_size, chunk_size, index) as u64,
    }
}

/// The whole plan: one range per chunk, in order.
pub open spec fn planned_ranges(file_size: nat, chunk_size: nat) -> Seq<ChunkRange> {
    Seq::new(
        chunk_count(file_size, chunk_size),
        |i: int| range_at(file_size, chunk_size, i as nat),
    )
}

/// The index of the chunk that holds byte offset `offset`.
pub open spec fn chunk_of(chunk_size: nat, offset: nat) -> nat
    recommends
        chunk_size > 0,
{
    offset / chunk_size
}

/// Whether byte offset `offset` lies in `range`.
pub open spec fn covers(range: ChunkRange, offset: nat) -> bool {
    range.byte_start <= offset < range.byte_end
}

/// The quotient rounded up is the least number of chunks that hold the file.
proof fn lemma_count_bounds(n: int, s: int)
    by (nonlinear_arith)
    requires
        n >= 0,
        s > 0,
    ensures
        (n + s - 1) / s >= 0,
        ((n + s - 1) / s) * s >= n,
        ((n + s - 1) / s - 1) * s < n,
        n == 0 ==> (n + s - 1) / s == 0,
        n > 0 ==> (n + s - 1) / s == (n - 1) / s + 1,
        (n + s - 1) / s <= n,
{
}

/// Chunks before the last are full and start inside the file.
proof fn lemma_start_in_file(n: int, s: int, i: int)
    by (nonlinear_arith)
    requires
        n >= 0,
        s > 0,
        0 <= i < (n + s - 1) / s,
    ensures
        0 <= i * s < n,
        i + 1 < (n + s - 1) / s ==> (i + 1) * s < n,
        i + 1 == (n + s - 1) / s ==> i * s + s >= n,
        (i + 1) * s == i * s + s,
{
}

/// The chunk count is the quotient of the file size by the chunk size,
/// rounded up: the least count whose chunks together hold the file.
/// An empty file has no chunks, and only an empty file has none.
pub proof fn lemma_chunk_count_is_ceiling(file_size: nat, chunk_size: nat)
    requires
        chunk_size > 0,
    ensures
        chunk_count(file_size, chunk_size) * chunk_size >= file_size,
        (chunk_count(file_size, chunk_size) - 1) * chunk_size < file_size,
        file_size == 0 <==> chunk_count(file_size, chunk_size) == 0,
        chunk_count(file_size, chunk_size) <= file_size,
{
    lemma_count_bounds(file_size as int, chunk_size as int);
}

/// A plan built from 64-bit sizes holds each offset as it is: no range
/// of it is cut short by the width of its fields.
pub proof fn lemma_ranges_exact(file_size: u64, chunk_size: u64, index: nat)
    requires
        chunk_size > 0,
        index < chunk_count(file_size as nat, chunk_size as nat),
    ensures
        planned_ranges(file_size as nat, chunk_size as nat)[index as int] == range_at(
            file_size as nat,
            chunk_size as nat,
            index,
        ),
        range_at(file_size as nat, chunk_size as nat, index).index == index,
        range_at(file_size as nat, chunk_size as nat, index).byte_start == index * chunk_size,
        range_at(file_size as nat, chunk_size as nat, index).byte_end == chunk_end(
            file_size as nat,
            chunk_size as nat,
            index,
        ),
        range_at(file_size as nat, chunk_size as nat, index).byte_start < range_at(
            file_size as nat,
            chunk_size as nat,
            index,
        ).byte_end <= file_size,
{
    lemma_count_bounds(file_size as int, chunk_size as int);
    lemma_start_in_file(file_size as int, chunk_size as int, index as int);
}

/// The quotient and remainder of the sizes decide the last chunk.
proof fn lemma_last_chunk(n: int, s: int)
    by (nonlinear_arith)
    requires
        n > 0,
        s > 0,
    ensures
        n % s == 0 ==> n - ((n + s - 1) / s - 1) * s == s,
        n % s != 0 ==> n - ((n + s - 1) / s - 1) * s == n % s,
{
}

/// Every chunk but the last holds `chunk_size` bytes. The last holds what
/// is left of the file: the remainder of the file size divided by the chunk
/// size, or a full chunk where nothing remains.
pub proof fn lemma_range_lengths(file_size: u64, chunk_size: u64, index: nat)
    requires
        chunk_size > 0,
        index < chunk_count(file_size as nat, chunk_size as nat),
    ensures
        ({
            let range = range_at(file_size as nat, chunk_size as nat, index);
            let count = chunk_count(file_size as nat, chunk_size as nat);
            &&& 1 <= range.byte_count() <= chunk_size
            &&& index + 1 < count ==> range.byte_count() == chunk_size
            &&& index + 1 == count ==> range.byte_count() == if file_size % chunk_size == 0 {
                chunk_size
            } else {
                file_size % chunk_size
            }
        }),
{
    lemma_ranges_exact(file_size, chunk_size, index);
    lemma_count_bounds(file_size as int, chunk_size as int);
    lemma_start_in_file(file_size as int, chunk_size as int, index as int);
    lemma_last_chunk(file_size as int, chunk_size as int);
}

/// The planned ranges tile the file: the first begins at offset 0, each
/// begins where the one before it ends, the last ends at the file's size,
/// none is empty, and so every offset of the file lies in exactly one of
/// them, the one whose index is the offset divided by the chunk size.
pub proof fn lemma_ranges_tile_file(file_size: u64, chunk_size: u64)
    requires
        chunk_size > 0,
    ensures
        ({
            let ranges = planned_ranges(file_size as nat, chunk_size as nat);
            &&& ranges.len() == chunk_count(file_size as nat, chunk_size as nat)
            &&& ranges.len() > 0 ==> ranges[0].byte_start == 0
            &&& ranges.len() > 0 ==> ranges.last().byte_end == file_size
            &&& forall|i: int|
                0 <= i < ranges.len() ==> (#[trigger] ranges[i]).index == i && ranges[i].byte_start
                    < ranges[i].byte_end
            &&& forall|i: int, j: int|
                0 <= i < ranges.len() && j == i + 1 && j < ranges.len() ==> (#[trigger] ranges[i]).byte_end
                    == (#[trigger] ranges[j]).byte_start
            &&& forall|offset: nat|
                offset < file_size ==> (#[trigger] chunk_of(chunk_size as nat, offset))
                    < ranges.len() && covers(
                    ranges[chunk_of(chunk_size as nat, offset) as int],
                    offset,
                )
            &&& forall|i: int, offset: nat|
                0 <= i < ranges.len() && #[trigger] covers(ranges[i], offset) ==> offset
                    < file_size && i == chunk_of(chunk_size as nat, offset)
        }),
{
    let n = file_size as nat;
    let s = chunk_size as nat;
    let ranges = planned_ranges(n, s);
    lemma_count_bounds(n as int, s as int);
    assert forall|i: int| 0 <= i < ranges.len() implies (#[trigger] ranges[i]).index == i
        && ranges[i].byte_start < ranges[i].byte_end && ranges[i].byte_start == i * s
        && ranges[i].byte_end == chunk_end(n, s, i as nat) by {
        lemma_ranges_exact(file_size, chunk_size, i as nat);
    }
    if ranges.len() > 0 {
        lemma_start_in_file(n as int, s as int, ranges.len() - 1);
    }
    assert forall|i: int, j: int|
        0 <= i < ranges.len() && j == i + 1 && j < ranges.len() implies (#[trigger] ranges[i]).byte_end
        == (#[trigger] ranges[j]).byte_start by {
        lemma_start_in_file(n as int, s as int, i);
    }
    assert forall|offset: nat| offset < file_size implies (#[trigger] chunk_of(s, offset))
        < ranges.len() && covers(ranges[chunk_of(s, offset) as int], offset) by {
        lemma_offset_index(n as int, s as int, offset as int);
        lemma_start_in_file(n as int, s as int, (offset / s) as int);
    }
    assert forall|i: int, offset: nat|
        0 <= i < ranges.len() && #[trigger] covers(ranges[i], offset) implies offset < file_size
        && i == chunk_of(s, offset) by {
        lemma_start_in_file(n as int, s as int, i);
        lemma_index_of_offset(s as int, i, offset as int);
    }
}

/// An offset inside the file falls in the chunk numbered by its quotient.
proof fn lemma_offset_index(n: int, s: int, offset: int)
    by (nonlinear_arith)
    requires
        s > 0,
        0 <= offset < n,
    ensures
        0 <= offset / s < (n + s - 1) / s,
        (offset / s) * s <= offset < (offset / s) * s + s,
{
}

/// An offset between `i * s` and `i * s + s` has quotient `i`.
proof fn lemma_index_of_offset(s: int, i: int, offset: int)
    by (nonlinear_arith)
    requires
        s > 0,
        i * s <= offset < i * s + s,
    ensures
        offset / s == i,
{
}

/// A plan for splitting `file_size` bytes into chunks of `chunk_size` bytes.
/// Its view is the sequence of planned ranges.
#[derive(Clone, Copy, Debug)]
pub struct ChunkPlan {
    file_size: u64,
    chunk_size: u64,
}

impl View for ChunkPlan {
    type V = Seq<ChunkRange>;

    open spec fn view(&self) -> Seq<ChunkRange> {
        planned_ranges(self.spec_file_size() as nat, self.spec_chunk_size() as nat)
    }
}

impl ChunkPlan {
    #[verifier::type_invariant]
    spec fn well_formed(&self) -> bool {
        self.chunk_size > 0
    }

    /// The size of the file that the plan is for.
    pub closed spec fn spec_file_size(&self) -> u64 {
        self.file_size
    }

    /// The size of every chunk but possibly the last.
    pub closed spec fn spec_chunk_size(&self) -> u64 {
        self.chunk_size
    }

    /// The size of the file that the plan is for.
    #[verifier::when_used_as_spec(spec_file_size)]
    pub fn file_size(&self) -> (size: u64)
        ensures
            size == self.spec_file_size(),
    {
        self.file_size
    }

    /// The size of every chunk but possibly the last; it is never zero.
    #[verifier::when_used_as_spec(spec_chunk_size)]
    pub fn chunk_size(&self) -> (size: u64)
        ensures
            size == self.spec_chunk_size(),
            size > 0,
    {
        proof {
            use_type_invariant(self);
        }
        self.chunk_size
    }

    /// The number of chunks.
    pub fn chunk_count(&self) -> (count: u64)
        ensures
            count == self@.len(),
            count == chunk_count(self.file_size() as nat, self.chunk_size() as nat),
    {
        proof {
            use_type_invariant(self);
            lemma_count_bounds(self.file_size as int, self.chunk_size as int);
        }
        if self.file_size == 0 {
            0
        } else {
            (self.file_size - 1) / self.chunk_size + 1
        }
    }

    /// The range of chunk `index`.
    pub fn range(&self, index: u64) -> (range: ChunkRange)
        requires
            index < self@.len(),
        ensures
            range == self@[index as int],
            range == range_at(self.file_size() as nat, self.chunk_size() as nat, index as nat),
    {
        proof {
            use_type_invariant(self);
            lemma_ranges_exact(self.file_size, self.chunk_size, index as nat);
            lemma_start_in_file(self.file_size as int, self.chunk_size as int, index as int);
        }
        let byte_start: u64 = index * self.chunk_size;
        let byte_end: u64 = if self.file_size - byte_start >= self.chunk_size {
            byte_start + self.chunk_size
        } else {
            self.file_size
        };
        ChunkRange { index, byte_start, byte_end }
    }

    /// All ranges, in order.
    pub fn ranges(&self) -> (ranges: Vec<ChunkRange>)
        ensures
            ranges@ == self@,
    {
        let count: u64 = self.chunk_count();
        let mut ranges: Vec<ChunkRange> = Vec::new();
        let mut index: u64 = 0;
        while index < count
            invariant
                index <= count,
                count == self@.len(),
                ranges@ == self@.take(index as int),
            decreases count - index,
        {
            let range = self.range(index);
            ranges.push(range);
            index = index + 1;
        }
        ranges
    }
}

/// Plans the split of a file of `file_size` bytes into chunks of
/// `chunk_size` bytes. A chunk size of zero is refused; every other pair of
/// sizes has a plan, and a file of no bytes has the plan of no chunks.
pub fn plan(file_size: u64, chunk_size: u64) -> (result: Result<ChunkPlan, ChunkError>)
    ensures
        chunk_size == 0 ==> result == Err::<ChunkPlan, ChunkError>(ChunkError::InvalidArgument),
        chunk_size > 0 ==> result is Ok,
        result matches Ok(p) ==> p.file_size() == file_size && p.chunk_size() == chunk_size && p@
            == planned_ranges(file_size as nat, chunk_size as nat),
{
    if chunk_size == 0 {
        Err(ChunkError::InvalidArgument)
    } else {
        Ok(ChunkPlan { file_size, chunk_size })
    }
}

} // verus!
