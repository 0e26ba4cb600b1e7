//! The index of one queue: a queue of segments whose records are units of twelve
//! bytes, each the address and the footprint of one record of the commit log. The
//! unit of the message with logical index `n` lies at the address `12 * n`.

use vstd::prelude::*;
use crate::codec::le_value;
use crate::codec::lemma_fixed_width;
use crate::codec::spec_u32_bytes;
use crate::codec::spec_u64_bytes;
use crate::codec::u32_from_bytes;
use crate::codec::u32_to_bytes;
use crate::codec::u64_from_bytes;
use crate::codec::u64_to_bytes;
use memmap2::MmapMut;
use crate::error::Error;
use crate::layout::queue_index_dir;
use crate::layout::queue_index_path;
use crate::mapped_file_queue::gapless;
use crate::mapped_file_queue::lemma_covered_is_address;
use crate::mapped_file_queue::recovers;
use crate::mapped_file_queue::lemma_sort_keeps;
use crate::mapped_file_queue::recover_all;
use crate::mapped_file_queue::sort_by_offset;
use crate::mapped_file_queue::views;
use crate::mapped_file_queue::MappedFileQueue;
use crate::mapped_file_queue::QueueView;
use crate::mapped_file_queue::Step;
use crate::mapping::mmap_bytes;
use crate::mmap_file::MemoryMappedFile;
use crate::mmap_file::SegmentView;
use crate::record::scan_end;
use crate::record::RecordParser;

verus! {

/// The number of bytes of one unit.
pub const MSG_INDEX_UNIT_SIZE: usize = 12;

/// Where a record of the commit log lies, and how many bytes it takes.
#[derive(Debug, Clone, Copy, PartialEq, Eq, Structural)]
pub struct MessageIndexUnit {
    /// The address of the record's first byte in the commit log.
    pub offset: u64,
    /// The footprint of the record: its length prefix and its payload.
    pub size: u32,
}

impl MessageIndexUnit {
    /// The twelve bytes of a unit: the offset, then the size, both little-endian.
    pub open spec fn spec_encode(self) -> Seq<u8> {
        spec_u64_bytes(self.offset) + spec_u32_bytes(self.size)
    }

    /// The unit that twelve bytes stand for.
    pub open spec fn spec_decode(bytes: Seq<u8>) -> MessageIndexUnit {
        MessageIndexUnit {
            offset: le_value(bytes.subrange(0, 8)) as u64,
            size: le_value(bytes.subrange(8, 12)) as u32,
        }
    }

    /// Writes the unit as twelve bytes.
    pub fn encode(&self) -> (bytes: Vec<u8>)
        ensures
            bytes@ == self.spec_encode(),
            bytes@.len() == MSG_INDEX_UNIT_SIZE,
    {
        let mut bytes = u64_to_bytes(self.offset);
        let mut size_bytes = u32_to_bytes(self.size);
        bytes.append(&mut size_bytes);
        bytes
    }

    /// Reads a unit from twelve bytes.
    pub fn decode(bytes: &[u8]) -> (unit: MessageIndexUnit)
        requires
            bytes@.len() == MSG_INDEX_UNIT_SIZE,
        ensures
            unit == MessageIndexUnit::spec_decode(bytes@),
    {
        MessageIndexUnit {
            offset: u64_from_bytes(bytes, 0),
            size: u32_from_bytes(bytes, 8),
        }
    }
}

/// Decoding the bytes of a unit gives the unit back.
pub proof fn lemma_unit_round_trip(unit: MessageIndexUnit)
    ensures
        unit.spec_encode().len() == MSG_INDEX_UNIT_SIZE,
        MessageIndexUnit::spec_decode(unit.spec_encode()) == unit,
{
    lemma_fixed_width(unit.offset, unit.size);
    let bytes = unit.spec_encode();
    assert(bytes.subrange(0, 8) =~= spec_u64_bytes(unit.offset));
    assert(bytes.subrange(8, 12) =~= spec_u32_bytes(unit.size));
}

/// The format of an index segment: a unit starts wherever twelve bytes are left
/// whose size field is not zero.
pub struct IndexParser;

impl RecordParser for IndexParser {
    open spec fn record_len(&self, bytes: Seq<u8>, pos: nat) -> Option<nat> {
        if pos + MSG_INDEX_UNIT_SIZE <= bytes.len() && le_value(
            bytes.subrange(pos + 8 as int, pos + 12 as int),
        ) > 0 {
            Some(MSG_INDEX_UNIT_SIZE as nat)
        } else {
            None
        }
    }

    fn parse(&self, mapping: &[u8], pos: usize) -> (r: Option<usize>) {
        let end = mapping.len();
        if pos > end || end - pos < MSG_INDEX_UNIT_SIZE {
            return None;
        }
        let size = u32_from_bytes(mapping, pos + 8);
        if size > 0 {
            Some(MSG_INDEX_UNIT_SIZE)
        } else {
            None
        }
    }
}

/// A scan over units that starts at a multiple of twelve stops at one.
pub proof fn lemma_scan_stops_at_unit(bytes: Seq<u8>, pos: nat)
    requires
        pos % 12 == 0,
    ensures
        scan_end(&IndexParser, bytes, pos) % 12 == 0,
    decreases bytes.len() - pos,
{
    if IndexParser.record_len(bytes, pos) is Some && pos + 12 <= bytes.len() {
        lemma_scan_stops_at_unit(bytes, pos + 12);
    }
}

/// Whether every segment starts and ends its committed bytes at a multiple of
/// twelve.
pub open spec fn unit_aligned(segments: Seq<SegmentView>) -> bool {
    forall|i: int|
        0 <= i < segments.len() ==> (#[trigger] segments[i]).min_offset % 12 == 0
            && segments[i].max_offset % 12 == 0
}

/// Gapless segments that each hold a whole number of units start and end at
/// multiples of twelve.
pub proof fn lemma_gapless_units_aligned(segments: Seq<SegmentView>, upto: int)
    requires
        gapless(segments),
        forall|i: int|
            0 <= i < segments.len() ==> (#[trigger] segments[i]).min_offset
                <= segments[i].max_offset && segments[i].used() % 12 == 0,
        0 <= upto <= segments.len(),
    ensures
        unit_aligned(segments.subrange(0, upto)),
    decreases upto,
{
    if upto > 0 {
        lemma_gapless_units_aligned(segments, upto - 1);
        let front = segments.subrange(0, upto - 1);
        let last = segments[upto - 1];
        assert(last.used() % 12 == 0);
        if upto > 1 {
            assert(front[upto - 2] == segments[upto - 2]);
            assert(segments[upto - 2].max_offset == last.min_offset);
        }
        assert forall|i: int| 0 <= i < upto implies (#[trigger] segments.subrange(
            0,
            upto,
        )[i]).min_offset % 12 == 0 && segments.subrange(0, upto)[i].max_offset % 12 == 0 by {
            if i < upto - 1 {
                assert(front[i] == segments[i]);
            }
        }
    }
}

/// Whether commit-log coordinates make a unit: the size is not zero and is a `u32`.
pub open spec fn indexable(msg_size: nat) -> bool {
    0 < msg_size <= u32::MAX
}

/// Whether the put of a record's unit into an index may answer `r` and leave the
/// index as `after`. Coordinates that make no unit are refused, and so is a unit
/// that no segment can hold. Where no tail has room for the unit, nothing changes
/// and a new tail is asked for at the frontier. Else the unit is copied in, and is
/// committed unless the mapping could not be made durable; the answer is the
/// record's logical index, the unit's address divided by twelve.
pub open spec fn index_puts(
    index: QueueView,
    msg_offset: nat,
    msg_size: nat,
    r: Result<Step<usize>, Error>,
    after: QueueView,
) -> bool {
    let unit = MessageIndexUnit { offset: msg_offset as u64, size: msg_size as u32 };
    if !indexable(msg_size) {
        r == Err::<Step<usize>, Error>(Error::InvalidInput) && after == index
    } else if MSG_INDEX_UNIT_SIZE > index.capacity {
        r == Err::<Step<usize>, Error>(Error::RecordTooLarge) && after == index
    } else if !index.has_room(MSG_INDEX_UNIT_SIZE as nat) {
        r == Ok::<Step<usize>, Error>(Step::Rollover(index.frontier() as usize)) && after == index
    } else {
        ||| (r == Ok::<Step<usize>, Error>(Step::Done((index.frontier() / 12) as usize)) && after
            == index.append(unit.spec_encode()))
        ||| (r == Err::<Step<usize>, Error>(Error::StorageIO) && after == index.stained(
            unit.spec_encode(),
        ))
    }
}

/// What a read of the unit with the logical index `i` gives: the unit that the
/// twelve bytes at the address twelve times `i` stand for.
pub open spec fn index_read(index: QueueView, i: nat) -> Result<MessageIndexUnit, Error> {
    match index.try_read(i * 12, MSG_INDEX_UNIT_SIZE as nat) {
        Ok(bytes) => Ok(MessageIndexUnit::spec_decode(bytes)),
        Err(e) => Err(e),
    }
}

/// Twelve bytes that go in behind the frontier leave every segment with a whole
/// number of units, committed or not.
pub proof fn lemma_unit_keeps_aligned(index: QueueView, unit: Seq<u8>)
    requires
        unit_aligned(index.segments),
        index.segments.len() > 0,
        unit.len() == MSG_INDEX_UNIT_SIZE,
    ensures
        unit_aligned(index.append(unit).segments),
        unit_aligned(index.stained(unit).segments),
{
    let last = index.segments.len() - 1;
    assert(index.segments[last].max_offset % 12 == 0);
    assert forall|i: int| 0 <= i < index.segments.len() implies (#[trigger] index.append(
        unit,
    ).segments[i]).min_offset % 12 == 0 && index.append(unit).segments[i].max_offset % 12 == 0 by {
        assert(index.segments[i].min_offset % 12 == 0);
    }
    assert forall|i: int| 0 <= i < index.segments.len() implies (#[trigger] index.stained(
        unit,
    ).segments[i]).min_offset % 12 == 0 && index.stained(unit).segments[i].max_offset % 12
        == 0 by {
        assert(index.segments[i].min_offset % 12 == 0);
    }
}

/// The index of one queue.
pub struct MessageIndex {
    mapped_file_queue: MappedFileQueue,
}

impl View for MessageIndex {
    type V = QueueView;

    closed spec fn view(&self) -> QueueView {
        self.mapped_file_queue@
    }
}

impl MessageIndex {
    /// The invariant of an index: that of its queue, and every segment holds a
    /// whole number of units.
    pub open spec fn wf(&self) -> bool {
        self@.wf() && unit_aligned(self@.segments)
    }

    /// The number of units that the index holds: the logical index of the next.
    pub open spec fn spec_len(&self) -> nat {
        self@.frontier() / 12
    }

    /// Opens the index of the queue `queue_id` of `topic` under the directory
    /// `store_path` of all indexes, on the files found in the queue's directory,
    /// given in any order and with nothing committed; the frontier of each is
    /// recovered by a scan over its units. Fails with `InvalidInput` where a file
    /// has not the capacity `max_file_size`, and with `Corruption` where the
    /// recovered segments leave a gap or do not start at 0.
    pub fn new(
        store_path: &str,
        topic: &str,
        queue_id: u32,
        max_file_size: u64,
        files: Vec<MemoryMappedFile>,
    ) -> (r: Result<Self, Error>)
        requires
            forall|i: int| 0 <= i < files@.len() ==> (#[trigger] files@[i]).wf(),
        ensures
            match recovers(max_file_size as nat, views(files@), &IndexParser) {
                Ok(segments) => r matches Ok(index) && index.wf() && index@ == (QueueView {
                    store_path: queue_index_path(store_path@, topic@, queue_id as nat),
                    capacity: max_file_size as nat,
                    segments,
                }),
                Err(e) => r matches Err(f) && e == f,
            },
    {
        let dir = queue_index_dir(store_path, topic, queue_id);
        match MappedFileQueue::new(dir.as_str(), max_file_size) {
            Err(e) => Err(e),
            Ok(queue) => {
                let mut queue = queue;
                match queue.recovery(files, &IndexParser) {
                    Err(e) => Err(e),
                    Ok(()) => {
                        proof {
                            let found = recover_all(views(files@), &IndexParser);
                            let whole = |s: SegmentView|
                                s.min_offset <= s.max_offset && s.used() % 12 == 0;
                            assert forall|i: int| 0 <= i < found.len() implies whole(
                                #[trigger] found[i],
                            ) by {
                                lemma_scan_stops_at_unit(views(files@)[i].bytes, 0);
                            }
                            lemma_sort_keeps(found, whole);
                            let sorted = sort_by_offset(found);
                            assert forall|i: int| 0 <= i < sorted.len() implies (
                            #[trigger] sorted[i]).min_offset <= sorted[i].max_offset
                                && sorted[i].used() % 12 == 0 by {
                                assert(whole(sorted[i]));
                            }
                            lemma_gapless_units_aligned(sorted, sorted.len() as int);
                            assert(sorted.subrange(0, sorted.len() as int) =~= sorted);
                        }
                        Ok(MessageIndex { mapped_file_queue: queue })
                    },
                }
            },
        }
    }

    /// The directory that holds the segment files.
    pub fn store_path(&self) -> (r: &str)
        ensures
            r@ == self@.store_path,
    {
        self.mapped_file_queue.store_path()
    }

    /// The capacity of every segment.
    pub fn max_file_size(&self) -> (r: u64)
        ensures
            r == self@.capacity,
    {
        self.mapped_file_queue.max_file_size()
    }

    /// The number of units that the index holds: the logical index of the next.
    pub fn len(&self) -> (r: usize)
        requires
            self.wf(),
        ensures
            r == self.spec_len(),
    {
        self.mapped_file_queue.frontier() / MSG_INDEX_UNIT_SIZE
    }

    /// The address behind the last committed byte.
    pub fn frontier(&self) -> (r: usize)
        requires
            self.wf(),
        ensures
            r == self@.frontier(),
    {
        self.mapped_file_queue.frontier()
    }

    /// Whether there is a tail segment in which one more unit fits.
    pub fn has_room(&self) -> (r: bool)
        requires
            self.wf(),
        ensures
            r == self@.has_room(MSG_INDEX_UNIT_SIZE as nat),
    {
        self.mapped_file_queue.has_room(MSG_INDEX_UNIT_SIZE)
    }

    /// Gives the segments back, from the first address on.
    pub fn into_mapped_files(self) -> (r: Vec<MemoryMappedFile>)
        ensures
            views(r@) == self@.segments,
    {
        self.mapped_file_queue.into_mapped_files()
    }

    /// Adds a new, empty tail segment over `mmap`, as `MappedFileQueue` does.
    pub fn create_mapped_file(&mut self, mmap: MmapMut, start_offset: usize) -> (r: Result<
        (),
        Error,
    >)
        requires
            old(self).wf(),
        ensures
            final(self).wf(),
            r is Ok <==> old(self)@.takes_tail(start_offset as nat, mmap_bytes(mmap).len()),
            r is Ok ==> final(self)@ == old(self)@.rolled(mmap_bytes(mmap)),
            r matches Err(e) ==> e == Error::InvalidInput && final(self)@ == old(self)@,
    {
        let ghost before = self@;
        let r = self.mapped_file_queue.create_mapped_file(mmap, start_offset);
        proof {
            if r is Ok {
                assert forall|i: int| 0 <= i < self@.segments.len() implies (
                #[trigger] self@.segments[i]).min_offset % 12 == 0 && self@.segments[i].max_offset
                    % 12 == 0 by {
                    if i < before.segments.len() {
                        assert(self@.segments[i] == before.segments[i]);
                    } else if before.segments.len() > 0 {
                        assert(before.segments.last() == before.segments[before.segments.len() - 1]);
                    }
                }
            }
        }
        r
    }

    /// Appends the unit of a record of the commit log and answers with the
    /// record's logical index, the unit's address divided by twelve. Coordinates
    /// that make no unit fail with `InvalidInput`, a unit that no segment can hold
    /// with `RecordTooLarge`. Where the tail has no room for the unit, nothing is
    /// written and the answer is `Rollover` with the address at which the new
    /// tail has to start. `StorageIO` says that the mapping could not be made
    /// durable: then the frontier has not moved.
    pub fn put_msg_index(&mut self, msg_offset: usize, msg_size: usize) -> (r: Result<
        Step<usize>,
        Error,
    >)
        requires
            old(self).wf(),
        ensures
            final(self).wf(),
            index_puts(old(self)@, msg_offset as nat, msg_size as nat, r, final(self)@),
    {
        if msg_size == 0 || msg_size > u32::MAX as usize {
            return Err(Error::InvalidInput);
        }
        let unit = MessageIndexUnit { offset: msg_offset as u64, size: msg_size as u32 };
        let bytes = unit.encode();
        let ghost before = self@;
        let appended = self.mapped_file_queue.append(&bytes);
        proof {
            if before.has_room(MSG_INDEX_UNIT_SIZE as nat) {
                lemma_unit_keeps_aligned(before, bytes@);
            }
        }
        match appended {
            Ok(Step::Done(offset)) => Ok(Step::Done(offset / MSG_INDEX_UNIT_SIZE)),
            Ok(Step::Rollover(start)) => Ok(Step::Rollover(start)),
            Err(e) => Err(e),
        }
    }

    /// Reads the unit of the record with the logical index `index_offset`: the
    /// twelve bytes at the address twelve times the index. Fails with
    /// `OffsetNotFound` where nothing has been committed at that address, and with
    /// `OutOfRange` where the unit ends with its segment's mapping.
    pub fn read_msg_index(&self, index_offset: usize) -> (r: Result<MessageIndexUnit, Error>)
        requires
            self.wf(),
        ensures
            r == index_read(self@, index_offset as nat),
    {
        if index_offset > usize::MAX / MSG_INDEX_UNIT_SIZE {
            proof {
                lemma_covered_is_address(self@, index_offset as nat * 12);
            }
            return Err(Error::OffsetNotFound);
        }
        let offset = index_offset * MSG_INDEX_UNIT_SIZE;
        match self.mapped_file_queue.read(offset, MSG_INDEX_UNIT_SIZE) {
            Err(e) => Err(e),
            Ok(bytes) => Ok(MessageIndexUnit::decode(bytes.as_slice())),
        }
    }
}

} // verus!
