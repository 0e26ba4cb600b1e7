//! A queue of segments that share one directory and one capacity. Together they
//! hold one gapless range of absolute addresses that starts at 0 and grows at its
//! end; no record lies across two segments.

use vstd::prelude::*;
use memmap2::MmapMut;
use crate::error::Error;
use crate::mapping::mmap_bytes;
use crate::mmap_file::MemoryMappedFile;
use crate::mmap_file::SegmentView;
use crate::mmap_file::read_is;
use crate::record::RecordParser;

verus! {

/// What an append came to.
#[derive(Debug, PartialEq, Eq)]
pub enum Step<T> {
    /// The bytes were committed.
    Done(T),
    /// Nothing was written: the bytes need a new tail segment, which starts at this
    /// address. Once its file is there and has been handed over, the append is to
    /// be made again.
    Rollover(usize),
}

/// A queue as plain values.
pub struct QueueView {
    /// The directory that holds the segment files.
    pub store_path: Seq<char>,
    /// The capacity of every segment.
    pub capacity: nat,
    /// The segments, from the first address on.
    pub segments: Seq<SegmentView>,
}

impl QueueView {
    /// Every segment is well formed and has the queue's capacity, the first starts
    /// at 0, and each of the others starts at the frontier of the one before it;
    /// only the tail may be empty.
    pub open spec fn wf(self) -> bool {
        &&& forall|i: int|
            0 <= i < self.segments.len() ==> (#[trigger] self.segments[i]).wf()
                && self.segments[i].capacity() == self.capacity
        &&& gapless(self.segments)
    }

    /// The address behind the last committed byte.
    pub open spec fn frontier(self) -> nat {
        if self.segments.len() == 0 {
            0
        } else {
            self.segments.last().max_offset
        }
    }

    /// Whether there is a tail segment in which `len` more bytes fit.
    pub open spec fn has_room(self, len: nat) -> bool {
        self.segments.len() > 0 && self.segments.last().fits(len)
    }

    /// The queue with its tail replaced.
    pub open spec fn with_tail(self, tail: SegmentView) -> QueueView {
        QueueView { segments: self.segments.update(self.segments.len() - 1, tail), ..self }
    }

    /// The queue after `data` has been appended to its tail.
    pub open spec fn append(self, data: Seq<u8>) -> QueueView {
        self.with_tail(self.segments.last().append(data))
    }

    /// The queue after `data` has been copied in behind the frontier and the
    /// frontier has stayed.
    pub open spec fn stained(self, data: Seq<u8>) -> QueueView {
        self.with_tail(self.segments.last().stained(data))
    }

    /// Whether an append of `data` may answer `r` and leave the queue as `after`.
    /// Bytes that no segment can hold are refused. Where no tail has room for the
    /// bytes, nothing changes and a new tail is asked for at the frontier. Else the
    /// bytes are copied in, and are committed unless the mapping could not be made
    /// durable.
    pub open spec fn appends(
        self,
        data: Seq<u8>,
        r: Result<Step<usize>, Error>,
        after: QueueView,
    ) -> bool {
        if data.len() > self.capacity {
            r == Err::<Step<usize>, Error>(Error::RecordTooLarge) && after == self
        } else if !self.has_room(data.len()) {
            r == Ok::<Step<usize>, Error>(Step::Rollover(self.frontier() as usize)) && after == self
        } else {
            ||| (r == Ok::<Step<usize>, Error>(Step::Done(self.frontier() as usize)) && after
                == self.append(data))
            ||| (r == Err::<Step<usize>, Error>(Error::StorageIO) && after == self.stained(data))
        }
    }

    /// What a read of `size` bytes at `offset` gives: the bytes out of the segment
    /// that holds the committed byte at `offset`.
    pub open spec fn try_read(self, offset: nat, size: nat) -> Result<Seq<u8>, Error> {
        if self.covers(offset) {
            self.holder(offset).try_read(offset, size)
        } else {
            Err(Error::OffsetNotFound)
        }
    }

    /// Whether the queue takes a new tail that starts at `start_offset` over a
    /// mapping of `mapping_len` bytes: the tail starts at the frontier and has the
    /// queue's capacity, its last address is a `usize`, and the present tail, if
    /// there is one, is not empty.
    pub open spec fn takes_tail(self, start_offset: nat, mapping_len: nat) -> bool {
        &&& start_offset == self.frontier()
        &&& mapping_len == self.capacity
        &&& start_offset + self.capacity <= usize::MAX
        &&& self.segments.len() > 0 ==> self.segments.last().used() > 0
    }

    /// Whether the `size` bytes at `offset` are committed bytes of one segment.
    pub open spec fn holds(self, offset: nat, size: nat) -> bool {
        self.covers(offset) && offset + size <= self.holder(offset).max_offset
    }

    /// The queue after a new, empty tail over `bytes` has been added at the frontier.
    pub open spec fn rolled(self, bytes: Seq<u8>) -> QueueView {
        QueueView {
            segments: self.segments.push(
                SegmentView { min_offset: self.frontier(), max_offset: self.frontier(), bytes },
            ),
            ..self
        }
    }

    /// Whether `offset` is the address of a committed byte.
    pub open spec fn covers(self, offset: nat) -> bool {
        exists|i: int| 0 <= i < self.segments.len() && (#[trigger] self.segments[i]).contains(offset)
    }

    /// The segment that holds the committed byte at `offset`.
    pub open spec fn holder(self, offset: nat) -> SegmentView {
        let i = choose|i: int|
            0 <= i < self.segments.len() && (#[trigger] self.segments[i]).contains(offset);
        self.segments[i]
    }
}

/// The first segment starts at 0, and each of the others at the frontier of the one
/// before it, which holds at least one committed byte.
pub open spec fn gapless(segments: Seq<SegmentView>) -> bool {
    &&& segments.len() > 0 ==> segments[0].min_offset == 0
    &&& forall|i: int|
        0 <= i < segments.len() - 1 ==> (#[trigger] segments[i]).min_offset
            < segments[i].max_offset == segments[i + 1].min_offset
}

/// Segments that lie further on in a queue hold higher addresses.
pub proof fn lemma_segments_ascend(q: QueueView, i: int, j: int)
    requires
        q.wf(),
        0 <= i < j < q.segments.len(),
    ensures
        q.segments[i].max_offset <= q.segments[j].min_offset,
    decreases j - i,
{
    if i + 1 < j {
        lemma_segments_ascend(q, i, j - 1);
        assert(q.segments[j - 1].wf());
    }
}

/// At most one segment holds the committed byte at an address: `holder` is the one
/// that does.
pub proof fn lemma_holder_unique(q: QueueView, i: int, offset: nat)
    requires
        q.wf(),
        0 <= i < q.segments.len(),
        q.segments[i].contains(offset),
    ensures
        q.covers(offset),
        q.holder(offset) == q.segments[i],
{
    let j = choose|j: int| 0 <= j < q.segments.len() && (#[trigger] q.segments[j]).contains(offset);
    if j < i {
        lemma_segments_ascend(q, j, i);
    } else if i < j {
        lemma_segments_ascend(q, i, j);
    }
}

/// The address of a committed byte is a `usize`.
pub proof fn lemma_covered_is_address(q: QueueView, offset: nat)
    requires
        q.wf(),
    ensures
        q.covers(offset) ==> offset < usize::MAX,
{
    if q.covers(offset) {
        let i = choose|i: int| 0 <= i < q.segments.len() && (#[trigger] q.segments[i]).contains(offset);
        assert(q.segments[i].wf());
    }
}

/// No committed byte has an address at the frontier or behind it: a read there
/// finds nothing.
pub proof fn lemma_nothing_behind_frontier(q: QueueView, offset: nat, size: nat)
    requires
        q.wf(),
        offset >= q.frontier(),
    ensures
        !q.covers(offset),
        q.try_read(offset, size) == Err::<Seq<u8>, Error>(Error::OffsetNotFound),
{
    if q.covers(offset) {
        let i = choose|i: int| 0 <= i < q.segments.len() && (#[trigger] q.segments[i]).contains(offset);
        let last = q.segments.len() - 1;
        if i < last {
            lemma_segments_ascend(q, i, last);
            assert(q.segments[last].wf());
        }
    }
}

/// Bytes that go in behind the frontier leave a well-formed queue, whether they
/// are committed or not; committed, they move the frontier by their number.
pub proof fn lemma_append_wf(q: QueueView, data: Seq<u8>)
    requires
        q.wf(),
        q.has_room(data.len()),
    ensures
        q.append(data).wf(),
        q.append(data).frontier() == q.frontier() + data.len(),
        q.stained(data).wf(),
        q.stained(data).frontier() == q.frontier(),
{
    let last = q.segments.len() - 1;
    assert(q.segments[last].wf());
    assert forall|i: int| 0 <= i < q.segments.len() implies (#[trigger] q.append(data).segments[i]).wf()
        && q.append(data).segments[i].capacity() == q.capacity && (#[trigger] q.stained(
        data,
    ).segments[i]).wf() && q.stained(data).segments[i].capacity() == q.capacity by {
        assert(q.segments[i].wf());
    }
    assert forall|i: int| 0 <= i < q.segments.len() - 1 implies (#[trigger] q.append(
        data,
    ).segments[i]).min_offset < q.append(data).segments[i].max_offset == q.append(
        data,
    ).segments[i + 1].min_offset by {
        assert(q.segments[i].max_offset == q.segments[i + 1].min_offset);
    }
    assert forall|i: int| 0 <= i < q.segments.len() - 1 implies (#[trigger] q.stained(
        data,
    ).segments[i]).min_offset < q.stained(data).segments[i].max_offset == q.stained(
        data,
    ).segments[i + 1].min_offset by {
        assert(q.segments[i].max_offset == q.segments[i + 1].min_offset);
    }
}

/// A new tail at the frontier leaves a well-formed queue with the same frontier
/// and room for everything that a segment can hold.
pub proof fn lemma_rolled_wf(q: QueueView, bytes: Seq<u8>)
    requires
        q.wf(),
        q.takes_tail(q.frontier(), bytes.len()),
    ensures
        q.rolled(bytes).wf(),
        q.rolled(bytes).frontier() == q.frontier(),
        forall|len: nat| len <= q.capacity ==> q.rolled(bytes).has_room(len),
{
    let r = q.rolled(bytes);
    assert forall|i: int| 0 <= i < r.segments.len() implies (#[trigger] r.segments[i]).wf()
        && r.segments[i].capacity() == r.capacity by {
        if i < q.segments.len() {
            assert(q.segments[i].wf());
        }
    }
    assert forall|i: int| 0 <= i < r.segments.len() - 1 implies (#[trigger] r.segments[i]).min_offset
        < r.segments[i].max_offset == r.segments[i + 1].min_offset by {
        if i < q.segments.len() - 1 {
            assert(q.segments[i].max_offset == q.segments[i + 1].min_offset);
        } else {
            assert(q.segments[i].wf());
        }
    }
}

/// Bytes that have been appended are committed bytes of the tail. They are read
/// back at the address that the append answered with, unless they end with the
/// tail's mapping: such bytes are out of the range of every read.
pub proof fn lemma_read_appended(q: QueueView, data: Seq<u8>)
    requires
        q.wf(),
        q.has_room(data.len()),
        data.len() > 0,
    ensures
        q.append(data).holds(q.frontier(), data.len()),
        q.append(data).holder(q.frontier()) == q.segments.last().append(data),
        q.append(data).holder(q.frontier()).read(q.frontier(), data.len()) == data,
        q.append(data).try_read(q.frontier(), data.len()) == (if q.segments.last().used()
            + data.len() < q.capacity {
            Ok::<Seq<u8>, Error>(data)
        } else {
            Err::<Seq<u8>, Error>(Error::OutOfRange)
        }),
{
    lemma_append_wf(q, data);
    let after = q.append(data);
    let last = q.segments.len() - 1;
    let tail = q.segments[last];
    assert(tail.wf());
    assert(after.segments[last] == tail.append(data));
    lemma_holder_unique(after, last, q.frontier());
    assert(tail.append(data).read(q.frontier(), data.len()) =~= data);
}

/// Committed bytes of one segment stay what they are, and where they are, when
/// bytes go in behind the frontier, committed or not, and when a new tail is
/// added: a read of them gives what it gave.
pub proof fn lemma_committed_bytes_stay(
    q: QueueView,
    offset: nat,
    size: nat,
    data: Seq<u8>,
    bytes: Seq<u8>,
)
    requires
        q.wf(),
        q.holds(offset, size),
    ensures
        q.has_room(data.len()) ==> same_bytes(q, q.append(data), offset, size),
        q.has_room(data.len()) ==> same_bytes(q, q.stained(data), offset, size),
        q.takes_tail(q.frontier(), bytes.len()) ==> same_bytes(q, q.rolled(bytes), offset, size),
{
    let i = choose|i: int| 0 <= i < q.segments.len() && (#[trigger] q.segments[i]).contains(offset);
    lemma_holder_unique(q, i, offset);
    let s = q.segments[i];
    assert(s.wf());
    if q.has_room(data.len()) {
        lemma_append_wf(q, data);
        let a = q.append(data);
        assert(a.segments[i].contains(offset));
        lemma_holder_unique(a, i, offset);
        assert(a.segments[i].read(offset, size) =~= s.read(offset, size));
        let t = q.stained(data);
        assert(t.segments[i].contains(offset));
        lemma_holder_unique(t, i, offset);
        assert(t.segments[i].read(offset, size) =~= s.read(offset, size));
    }
    if q.takes_tail(q.frontier(), bytes.len()) {
        lemma_rolled_wf(q, bytes);
        let r = q.rolled(bytes);
        assert(r.segments[i] == s);
        lemma_holder_unique(r, i, offset);
    }
}

/// Whether the `size` bytes at `offset`, committed in `before`, are committed in
/// `after` too, with the same values, and a read of them gives the same.
pub open spec fn same_bytes(before: QueueView, after: QueueView, offset: nat, size: nat) -> bool {
    &&& after.holds(offset, size)
    &&& after.holder(offset).read(offset, size) == before.holder(offset).read(offset, size)
    &&& after.try_read(offset, size) == before.try_read(offset, size)
}

/// An append never answers that a segment's capacity is exceeded; bytes that a
/// segment can hold are either written, or wait for a new tail that the queue
/// takes, if the addresses do not run out, and in which they fit.
pub proof fn lemma_rollover_hides_capacity(
    q: QueueView,
    data: Seq<u8>,
    r: Result<Step<usize>, Error>,
    after: QueueView,
    bytes: Seq<u8>,
)
    requires
        q.wf(),
        q.appends(data, r, after),
    ensures
        r != Err::<Step<usize>, Error>(Error::CapacityExceeded),
        data.len() <= q.capacity ==> r != Err::<Step<usize>, Error>(Error::RecordTooLarge),
        r matches Ok(Step::Rollover(start)) ==> {
            &&& after == q
            &&& start == q.frontier()
            &&& bytes.len() == q.capacity && start + q.capacity <= usize::MAX ==> q.takes_tail(
                start as nat,
                bytes.len(),
            ) && q.rolled(bytes).has_room(data.len())
        },
{
    if r is Ok && r->Ok_0 is Rollover {
        if q.segments.len() > 0 {
            let last = q.segments.len() - 1;
            assert(q.segments[last].wf());
            if q.segments.len() > 1 {
                lemma_segments_ascend(q, 0, last);
            }
        }
        if bytes.len() == q.capacity && q.frontier() + q.capacity <= usize::MAX {
            lemma_rolled_wf(q, bytes);
        }
    }
}

/// The place of `s` among segments in ascending order of their first address:
/// behind every segment that does not start after it.
pub open spec fn insert_by_offset(sorted: Seq<SegmentView>, s: SegmentView) -> Seq<SegmentView>
    decreases sorted.len(),
{
    if sorted.len() == 0 {
        seq![s]
    } else if sorted.last().min_offset <= s.min_offset {
        sorted.push(s)
    } else {
        insert_by_offset(sorted.drop_last(), s).push(sorted.last())
    }
}

/// The segments in ascending order of their first address.
pub open spec fn sort_by_offset(segments: Seq<SegmentView>) -> Seq<SegmentView>
    decreases segments.len(),
{
    if segments.len() == 0 {
        Seq::empty()
    } else {
        insert_by_offset(sort_by_offset(segments.drop_first()), segments.first())
    }
}

/// `insert_by_offset` puts a segment at `p` where every segment from `p` on starts
/// after it and the one before `p`, if there is one, does not.
pub proof fn lemma_insert_position(sorted: Seq<SegmentView>, s: SegmentView, p: int)
    requires
        0 <= p <= sorted.len(),
        forall|j: int| p <= j < sorted.len() ==> (#[trigger] sorted[j]).min_offset > s.min_offset,
        p > 0 ==> sorted[p - 1].min_offset <= s.min_offset,
    ensures
        insert_by_offset(sorted, s) == sorted.insert(p, s),
    decreases sorted.len(),
{
    if sorted.len() == 0 {
        assert(seq![s] =~= sorted.insert(p, s));
    } else if p == sorted.len() {
        assert(sorted.push(s) =~= sorted.insert(p, s));
    } else {
        assert(sorted.last().min_offset > s.min_offset);
        lemma_insert_position(sorted.drop_last(), s, p);
        assert(sorted.drop_last().insert(p, s).push(sorted.last()) =~= sorted.insert(p, s));
    }
}

/// What holds of a segment and of each of the segments in order holds of each of
/// them once the segment has got its place among them.
pub proof fn lemma_insert_keeps(
    sorted: Seq<SegmentView>,
    s: SegmentView,
    holds: spec_fn(SegmentView) -> bool,
)
    requires
        holds(s),
        forall|i: int| 0 <= i < sorted.len() ==> holds(#[trigger] sorted[i]),
    ensures
        insert_by_offset(sorted, s).len() == sorted.len() + 1,
        forall|i: int|
            0 <= i < sorted.len() + 1 ==> holds(#[trigger] insert_by_offset(sorted, s)[i]),
    decreases sorted.len(),
{
    if sorted.len() > 0 && sorted.last().min_offset > s.min_offset {
        lemma_insert_keeps(sorted.drop_last(), s, holds);
        assert forall|i: int| 0 <= i < sorted.len() + 1 implies holds(
            #[trigger] insert_by_offset(sorted, s)[i],
        ) by {
            if i < sorted.len() {
                assert(insert_by_offset(sorted, s)[i] == insert_by_offset(sorted.drop_last(), s)[i]);
            }
        }
    }
}

/// What holds of each of the segments holds of each of them in ascending order:
/// the order holds the same segments.
pub proof fn lemma_sort_keeps(segments: Seq<SegmentView>, holds: spec_fn(SegmentView) -> bool)
    requires
        forall|i: int| 0 <= i < segments.len() ==> holds(#[trigger] segments[i]),
    ensures
        sort_by_offset(segments).len() == segments.len(),
        forall|i: int|
            0 <= i < segments.len() ==> holds(#[trigger] sort_by_offset(segments)[i]),
    decreases segments.len(),
{
    if segments.len() > 0 {
        lemma_sort_keeps(segments.drop_first(), holds);
        lemma_insert_keeps(sort_by_offset(segments.drop_first()), segments.first(), holds);
    }
}

/// Segments in ascending order start at addresses that do not fall.
pub proof fn lemma_sort_ascends(segments: Seq<SegmentView>, i: int, j: int)
    requires
        0 <= i <= j < segments.len(),
    ensures
        sort_by_offset(segments).len() == segments.len(),
        sort_by_offset(segments)[i].min_offset <= sort_by_offset(segments)[j].min_offset,
    decreases segments.len(),
{
    lemma_sort_keeps(segments, |s: SegmentView| true);
    let rest = sort_by_offset(segments.drop_first());
    lemma_sort_keeps(segments.drop_first(), |s: SegmentView| true);
    assert forall|a: int, b: int| 0 <= a <= b < rest.len() implies rest[a].min_offset
        <= rest[b].min_offset by {
        lemma_sort_ascends(segments.drop_first(), a, b);
    }
    lemma_insert_ascends(rest, segments.first(), i, j);
}

/// A segment that gets its place among segments in ascending order leaves them in
/// ascending order.
pub proof fn lemma_insert_ascends(sorted: Seq<SegmentView>, s: SegmentView, i: int, j: int)
    requires
        forall|a: int, b: int|
            0 <= a <= b < sorted.len() ==> sorted[a].min_offset <= sorted[b].min_offset,
        0 <= i <= j < sorted.len() + 1,
    ensures
        insert_by_offset(sorted, s).len() == sorted.len() + 1,
        insert_by_offset(sorted, s)[i].min_offset <= insert_by_offset(sorted, s)[j].min_offset,
    decreases sorted.len(),
{
    lemma_insert_keeps(sorted, s, |x: SegmentView| true);
    if sorted.len() > 0 {
        if sorted.last().min_offset <= s.min_offset {
        } else {
            let front = sorted.drop_last();
            lemma_insert_keeps(front, s, |x: SegmentView| true);
            if j < sorted.len() {
                lemma_insert_ascends(front, s, i, j);
            } else if i < sorted.len() {
                lemma_insert_keeps(
                    front,
                    s,
                    |x: SegmentView| x.min_offset <= sorted.last().min_offset,
                );
            }
        }
    }
}

/// Each of the segments with its frontier where a scan of its bytes stops.
pub open spec fn recover_all<P: RecordParser>(segments: Seq<SegmentView>, parser: &P) -> Seq<
    SegmentView,
> {
    Seq::new(segments.len(), |i: int| segments[i].recovered(parser))
}

/// What the recovery of a queue from the segments found in its directory gives:
/// the segments in ascending order, each with its recovered frontier, where all
/// have the queue's capacity and leave no gap.
pub open spec fn recovers<P: RecordParser>(
    capacity: nat,
    found: Seq<SegmentView>,
    parser: &P,
) -> Result<Seq<SegmentView>, Error> {
    if !all_of_capacity(found, capacity) {
        Err(Error::InvalidInput)
    } else if !gapless(sort_by_offset(recover_all(found, parser))) {
        Err(Error::Corruption)
    } else {
        Ok(sort_by_offset(recover_all(found, parser)))
    }
}

/// Whether every one of the segments has the given capacity.
pub open spec fn all_of_capacity(segments: Seq<SegmentView>, capacity: nat) -> bool {
    forall|i: int| 0 <= i < segments.len() ==> (#[trigger] segments[i]).capacity() == capacity
}

/// The views of segments.
pub open spec fn views(files: Seq<MemoryMappedFile>) -> Seq<SegmentView> {
    Seq::new(files.len(), |i: int| files[i]@)
}

/// A queue of memory-mapped segment files.
pub struct MappedFileQueue {
    store_path: String,
    max_file_size: u64,
    mapped_files: Vec<MemoryMappedFile>,
}

impl View for MappedFileQueue {
    type V = QueueView;

    closed spec fn view(&self) -> QueueView {
        QueueView {
            store_path: self.store_path@,
            capacity: self.max_file_size as nat,
            segments: views(self.mapped_files@),
        }
    }
}

impl MappedFileQueue {
    /// The invariant of a queue.
    pub open spec fn wf(&self) -> bool {
        self@.wf()
    }

    /// Makes a queue without segments for the directory `store_path`.
    pub fn new(store_path: &str, max_file_size: u64) -> (r: Result<Self, Error>)
        ensures
            r matches Ok(queue) && queue.wf() && queue@ == (QueueView {
                store_path: store_path@,
                capacity: max_file_size as nat,
                segments: Seq::empty(),
            }),
    {
        let queue = MappedFileQueue {
            store_path: store_path.to_owned(),
            max_file_size,
            mapped_files: Vec::new(),
        };
        assert(queue@.segments =~= Seq::empty());
        Ok(queue)
    }

    /// The directory that holds the segment files.
    pub fn store_path(&self) -> (r: &str)
        ensures
            r@ == self@.store_path,
    {
        self.store_path.as_str()
    }

    /// The capacity of every segment.
    pub fn max_file_size(&self) -> (r: u64)
        ensures
            r == self@.capacity,
    {
        self.max_file_size
    }

    /// The address behind the last committed byte.
    pub fn frontier(&self) -> (r: usize)
        requires
            self.wf(),
        ensures
            r == self@.frontier(),
    {
        let n = self.mapped_files.len();
        if n == 0 {
            0
        } else {
            assert(self@.segments[n - 1] == self.mapped_files@[n - 1]@);
            self.mapped_files[n - 1].get_max_offset()
        }
    }

    /// Whether there is a tail segment in which `len` more bytes fit.
    pub fn has_room(&self, len: usize) -> (r: bool)
        requires
            self.wf(),
        ensures
            r == self@.has_room(len as nat),
    {
        let n = self.mapped_files.len();
        if n == 0 {
            false
        } else {
            assert(self@.segments[n - 1] == self.mapped_files@[n - 1]@);
            assert(self@.segments[n - 1].wf());
            let tail = &self.mapped_files[n - 1];
            len <= tail.capacity() - (tail.get_max_offset() - tail.get_min_offset())
        }
    }

    /// The segments, from the first address on.
    pub fn get_mapped_files(&self) -> (r: &Vec<MemoryMappedFile>)
        ensures
            views(r@) == self@.segments,
    {
        &self.mapped_files
    }

    /// Gives the segments back, from the first address on.
    pub fn into_mapped_files(self) -> (r: Vec<MemoryMappedFile>)
        ensures
            views(r@) == self@.segments,
    {
        self.mapped_files
    }

    /// Adds a new, empty tail segment over `mmap`. It has to start at the
    /// frontier, `mmap` has to have the queue's capacity, the new segment's last
    /// address has to be a `usize`, and the present tail must not be empty: else the
    /// call fails with `InvalidInput` and changes nothing.
    pub fn create_mapped_file(&mut self, mmap: MmapMut, start_offset: usize) -> (r: Result<
        (),
        Error,
    >)
        requires
            old(self).wf(),
        ensures
            final(self).wf(),
            r is Ok <==> old(self)@.takes_tail(start_offset as nat, mmap_bytes(mmap).len()),
            r is Ok ==> final(self)@ == old(self)@.rolled(mmap_bytes(mmap)),
            r matches Err(e) ==> e == Error::InvalidInput && final(self)@ == old(self)@,
    {
        if start_offset != self.frontier() {
            return Err(Error::InvalidInput);
        }
        let n = self.mapped_files.len();
        if n > 0 {
            assert(self@.segments[n - 1] == self.mapped_files@[n - 1]@);
            if self.mapped_files[n - 1].get_min_offset() == start_offset {
                return Err(Error::InvalidInput);
            }
        }
        match MemoryMappedFile::new(mmap, start_offset) {
            Err(e) => Err(e),
            Ok(file) => {
                if file.capacity() as u64 != self.max_file_size {
                    return Err(Error::InvalidInput);
                }
                self.mapped_files.push(file);
                proof {
                    let q = old(self)@;
                    assert(self@.segments =~= q.rolled(mmap_bytes(mmap)).segments);
                    assert forall|i: int| 0 <= i < self@.segments.len() - 1 implies (
                    #[trigger] self@.segments[i]).min_offset < self@.segments[i].max_offset
                        == self@.segments[i + 1].min_offset by {
                        if i < q.segments.len() - 1 {
                            assert(q.segments[i].max_offset == q.segments[i + 1].min_offset);
                        }
                    }
                    assert forall|i: int| 0 <= i < self@.segments.len() implies (
                    #[trigger] self@.segments[i]).wf() && self@.segments[i].capacity()
                        == self@.capacity by {
                        if i < q.segments.len() {
                            assert(q.segments[i].wf());
                        }
                    }
                }
                Ok(())
            },
        }
    }

    /// Makes the segments of the queue out of the files found in its directory,
    /// given in any order and with nothing committed: recovers the frontier of each
    /// by a scan and puts them in ascending order of their first address. Fails
    /// with `InvalidInput` where a file has not the queue's capacity, and with
    /// `Corruption` where the recovered segments leave a gap, do not start at 0, or
    /// another follows an empty one; a failure changes nothing.
    pub fn recovery<P: RecordParser>(&mut self, files: Vec<MemoryMappedFile>, parser: &P) -> (r:
        Result<(), Error>)
        requires
            old(self).wf(),
            forall|i: int| 0 <= i < files@.len() ==> (#[trigger] files@[i]).wf(),
        ensures
            final(self).wf(),
            match recovers(old(self)@.capacity, views(files@), parser) {
                Ok(segments) => r == Ok::<(), Error>(()) && final(self)@ == (QueueView {
                    segments,
                    ..old(self)@
                }),
                Err(e) => r == Err::<(), Error>(e) && final(self)@ == old(self)@,
            },
    {
        let mut rest = files;
        let n = rest.len();
        let ghost found = views(files@);
        let ghost scanned = recover_all(found, parser);
        let mut i: usize = 0;
        while i < n
            invariant
                i <= n,
                n == rest@.len(),
                rest@ == files@,
                found == views(files@),
                *self == *old(self),
                self.wf(),
                forall|j: int| 0 <= j < i ==> (#[trigger] found[j]).capacity() == self@.capacity,
            decreases n - i,
        {
            assert(found[i as int] == rest@[i as int]@);
            if rest[i].capacity() as u64 != self.max_file_size {
                return Err(Error::InvalidInput);
            }
            i = i + 1;
        }
        let mut sorted: Vec<MemoryMappedFile> = Vec::new();
        assert(views(sorted@) =~= sort_by_offset(scanned.subrange(n as int, n as int)));
        assert(views(rest@) =~= found.subrange(0, n as int));
        while rest.len() > 0
            invariant
                rest@.len() <= n,
                n == found.len(),
                scanned == recover_all(found, parser),
                views(rest@) == found.subrange(0, rest@.len() as int),
                forall|j: int| 0 <= j < rest@.len() ==> (#[trigger] rest@[j]).wf(),
                all_of_capacity(found, self@.capacity),
                views(sorted@) == sort_by_offset(scanned.subrange(rest@.len() as int, n as int)),
                forall|j: int|
                    0 <= j < sorted@.len() ==> (#[trigger] sorted@[j]).wf() && sorted@[j]@.capacity()
                        == self@.capacity,
            decreases rest@.len(),
        {
            let ghost before = rest@;
            let ghost k = rest@.len() - 1;
            let mut file = rest.pop().unwrap();
            proof {
                assert(views(before)[k] == before[k]@);
                assert(found[k].capacity() == self@.capacity);
                assert(views(rest@) =~= found.subrange(0, k));
            }
            file.read_record(parser);
            let start = file.get_min_offset();
            let mut p = sorted.len();
            while p > 0 && sorted[p - 1].get_min_offset() > start
                invariant
                    p <= sorted@.len(),
                    forall|j: int|
                        p <= j < sorted@.len() ==> (#[trigger] views(sorted@)[j]).min_offset > start,
                decreases p,
            {
                p = p - 1;
            }
            proof {
                let tail = scanned.subrange(k, n as int);
                assert(tail.first() == file@);
                assert(tail.drop_first() =~= scanned.subrange(k + 1, n as int));
                if p > 0 {
                    assert(views(sorted@)[p - 1] == sorted@[p - 1]@);
                }
                lemma_insert_position(views(sorted@), file@, p as int);
            }
            let ghost placed = views(sorted@);
            sorted.insert(p, file);
            assert(views(sorted@) =~= placed.insert(p as int, file@));
        }
        assert(scanned.subrange(0, n as int) =~= scanned);
        let m = sorted.len();
        if m > 0 {
            assert(views(sorted@)[0] == sorted@[0]@);
            if sorted[0].get_min_offset() != 0 {
                return Err(Error::Corruption);
            }
            let mut j: usize = 0;
            while j + 1 < m
                invariant
                    j < m,
                    m == sorted@.len(),
                    *self == *old(self),
                self.wf(),
                    found == views(files@),
                    all_of_capacity(found, self@.capacity),
                    views(sorted@) == sort_by_offset(recover_all(found, parser)),
                    forall|l: int|
                        0 <= l < j ==> (#[trigger] views(sorted@)[l]).min_offset < views(
                            sorted@,
                        )[l].max_offset == views(sorted@)[l + 1].min_offset,
                decreases m - j,
            {
                assert(views(sorted@)[j as int] == sorted@[j as int]@);
                assert(views(sorted@)[j + 1] == sorted@[j + 1]@);
                if sorted[j].get_max_offset() != sorted[j + 1].get_min_offset()
                    || sorted[j].get_min_offset() >= sorted[j].get_max_offset() {
                    return Err(Error::Corruption);
                }
                j = j + 1;
            }
        }
        self.mapped_files = sorted;
        proof {
            assert forall|l: int| 0 <= l < self@.segments.len() implies (
            #[trigger] self@.segments[l]).wf() && self@.segments[l].capacity()
                == self@.capacity by {
                assert(sorted@[l].wf());
            }
        }
        Ok(())
    }

    /// Appends `data` to the tail segment. Bytes that no segment can hold fail with
    /// `RecordTooLarge`. Where there is no tail yet, or the bytes do not fit behind
    /// its frontier, nothing is written and the answer is `Rollover` with the
    /// address at which the new tail has to start. Else the bytes go in at the
    /// frontier, and the answer is `Done` with their address, or `StorageIO`
    /// where the mapping could not be made durable: then the frontier has not moved.
    pub fn append(&mut self, data: &Vec<u8>) -> (r: Result<Step<usize>, Error>)
        requires
            old(self).wf(),
        ensures
            final(self).wf(),
            old(self)@.appends(data@, r, final(self)@),
    {
        if data.len() as u64 > self.max_file_size {
            return Err(Error::RecordTooLarge);
        }
        let n = self.mapped_files.len();
        if n == 0 {
            return Ok(Step::Rollover(0));
        }
        assert(self@.segments[n - 1] == self.mapped_files@[n - 1]@);
        assert(self@.segments[n - 1].wf());
        let tail = &mut self.mapped_files[n - 1];
        let appended = tail.append(data);
        proof {
            let q = old(self)@;
            assert(self@.segments =~= q.with_tail(self.mapped_files@[n - 1]@).segments);
            if !q.has_room(data@.len()) {
                assert(self@.segments =~= q.segments);
            }
            assert forall|i: int| 0 <= i < self@.segments.len() - 1 implies (
            #[trigger] self@.segments[i]).min_offset < self@.segments[i].max_offset
                == self@.segments[i + 1].min_offset by {
                assert(q.segments[i].max_offset == q.segments[i + 1].min_offset);
            }
            assert forall|i: int| 0 <= i < self@.segments.len() implies (
            #[trigger] self@.segments[i]).wf() && self@.segments[i].capacity()
                == self@.capacity by {
                assert(q.segments[i].wf());
            }
        }
        match appended {
            Ok(offset) => Ok(Step::Done(offset)),
            Err(Error::CapacityExceeded) => Ok(Step::Rollover(self.frontier())),
            Err(e) => Err(e),
        }
    }

    /// Copies `size` bytes at the absolute address `offset` out of the segment that
    /// holds the committed byte at that address. Fails with `OffsetNotFound` where
    /// no segment does, and with `OutOfRange` where the bytes would reach the end
    /// of that segment's mapping.
    pub fn read(&self, offset: usize, size: usize) -> (r: Result<Vec<u8>, Error>)
        requires
            self.wf(),
        ensures
            read_is(r, self@.try_read(offset as nat, size as nat)),
    {
        let n = self.mapped_files.len();
        let mut i: usize = 0;
        while i < n
            invariant
                i <= n,
                n == self.mapped_files@.len(),
                self.wf(),
                forall|j: int| 0 <= j < i ==> !(#[trigger] self@.segments[j]).contains(offset as nat),
            decreases n - i,
        {
            assert(self@.segments[i as int] == self.mapped_files@[i as int]@);
            if self.mapped_files[i].contains(offset) {
                proof {
                    lemma_holder_unique(self@, i as int, offset as nat);
                    assert(self@.segments[i as int].wf());
                }
                return self.mapped_files[i].read(offset, size);
            }
            i = i + 1;
        }
        Err(Error::OffsetNotFound)
    }
}

} // verus!
