//! The commit log: a queue of segments whose records are payloads, each behind
//! its length as eight little-endian bytes.

use vstd::prelude::*;
use crate::codec::le_value;
use crate::codec::lemma_fixed_width;
use crate::codec::spec_u64_bytes;
use crate::codec::u64_from_bytes;
use crate::codec::u64_to_bytes;
use memmap2::MmapMut;
use crate::error::Error;
use crate::layout::commit_log_dir;
use crate::layout::commit_log_path;
use crate::mapped_file_queue::lemma_covered_is_address;
use crate::mapped_file_queue::recovers;
use crate::mapped_file_queue::views;
use crate::mapped_file_queue::MappedFileQueue;
use crate::mapped_file_queue::QueueView;
use crate::mapped_file_queue::Step;
use crate::mapping::mmap_bytes;
use crate::mmap_file::MemoryMappedFile;
use crate::mmap_file::read_is;
use crate::msg_index::MessageIndexUnit;
use crate::record::RecordParser;

verus! {

/// The number of bytes of a record's length prefix.
pub const LENGTH_PREFIX_SIZE: usize = 8;

/// The bytes of the record that holds `payload`.
pub open spec fn record_bytes(payload: Seq<u8>) -> Seq<u8> {
    spec_u64_bytes(payload.len() as u64) + payload
}

/// The footprint of the record of a payload of `len` bytes.
pub open spec fn footprint(len: nat) -> nat {
    LENGTH_PREFIX_SIZE as nat + len
}

/// The payload of a record: what stands behind the length prefix.
pub open spec fn record_payload(record: Seq<u8>) -> Seq<u8> {
    record.subrange(LENGTH_PREFIX_SIZE as int, record.len() as int)
}

/// A record's payload is the payload it was made of, and its prefix holds the
/// payload's length.
pub proof fn lemma_record_round_trip(payload: Seq<u8>)
    requires
        payload.len() <= u64::MAX,
    ensures
        record_bytes(payload).len() == LENGTH_PREFIX_SIZE + payload.len(),
        record_payload(record_bytes(payload)) == payload,
        le_value(record_bytes(payload).subrange(0, LENGTH_PREFIX_SIZE as int)) == payload.len(),
{
    lemma_fixed_width(payload.len() as u64, 0);
    let record = record_bytes(payload);
    assert(record.subrange(0, 8) =~= spec_u64_bytes(payload.len() as u64));
    assert(record_payload(record) =~= payload);
}

/// Whether a write of `payload` to a commit log may answer `r` and leave the log as
/// `after`. An empty payload is refused, and so is a record that no segment can
/// hold. Where no tail has room for the record, nothing changes and a new tail is
/// asked for at the frontier. Else the record is copied in, and is committed
/// unless the mapping could not be made durable; the answer is the record's
/// address and its footprint.
pub open spec fn log_writes(
    log: QueueView,
    payload: Seq<u8>,
    r: Result<Step<(usize, usize)>, Error>,
    after: QueueView,
) -> bool {
    if payload.len() == 0 {
        r == Err::<Step<(usize, usize)>, Error>(Error::InvalidInput) && after == log
    } else if footprint(payload.len()) > log.capacity || footprint(payload.len()) > usize::MAX {
        r == Err::<Step<(usize, usize)>, Error>(Error::RecordTooLarge) && after == log
    } else if !log.has_room(footprint(payload.len())) {
        r == Ok::<Step<(usize, usize)>, Error>(Step::Rollover(log.frontier() as usize)) && after
            == log
    } else {
        ||| (r == Ok::<Step<(usize, usize)>, Error>(
            Step::Done((log.frontier() as usize, footprint(payload.len()) as usize)),
        ) && after == log.append(record_bytes(payload)))
        ||| (r == Err::<Step<(usize, usize)>, Error>(Error::StorageIO) && after == log.stained(
            record_bytes(payload),
        ))
    }
}

/// What a read of the record that an index unit points to gives: the bytes at the
/// unit's offset, as many as its size says, which must not be zero.
pub open spec fn log_read(log: QueueView, unit: MessageIndexUnit) -> Result<Seq<u8>, Error> {
    if unit.size == 0 {
        Err(Error::InvalidInput)
    } else {
        log.try_read(unit.offset as nat, unit.size as nat)
    }
}

/// The format of a commit-log segment: a record starts wherever eight bytes hold a
/// length that is not zero and that many bytes follow them in the mapping.
pub struct CommitLogParser;

impl RecordParser for CommitLogParser {
    open spec fn record_len(&self, bytes: Seq<u8>, pos: nat) -> Option<nat> {
        if pos + LENGTH_PREFIX_SIZE <= bytes.len() {
            let len = le_value(bytes.subrange(pos as int, pos + 8 as int));
            if len > 0 && pos + LENGTH_PREFIX_SIZE + len <= bytes.len() {
                Some((LENGTH_PREFIX_SIZE + len) as nat)
            } else {
                None
            }
        } else {
            None
        }
    }

    fn parse(&self, mapping: &[u8], pos: usize) -> (r: Option<usize>) {
        let end = mapping.len();
        if pos > end || end - pos < LENGTH_PREFIX_SIZE {
            return None;
        }
        let len = u64_from_bytes(mapping, pos);
        if len == 0 || len > (end - pos - LENGTH_PREFIX_SIZE) as u64 {
            return None;
        }
        Some(LENGTH_PREFIX_SIZE + len as usize)
    }
}

/// The commit log of a store.
pub struct CommitLog {
    mapped_file_queue: MappedFileQueue,
}

impl View for CommitLog {
    type V = QueueView;

    closed spec fn view(&self) -> QueueView {
        self.mapped_file_queue@
    }
}

impl CommitLog {
    /// The invariant of a commit log.
    pub open spec fn wf(&self) -> bool {
        self@.wf()
    }

    /// Opens the commit log under `store_path` on the files found in its
    /// directory, given in any order and with nothing committed; the frontier of
    /// each is recovered by a scan over its records. Fails with `InvalidInput`
    /// where a file has not the capacity `max_file_size`, and with `Corruption`
    /// where the recovered segments leave a gap or do not start at 0.
    pub fn new(store_path: &str, max_file_size: u64, files: Vec<MemoryMappedFile>) -> (r: Result<
        Self,
        Error,
    >)
        requires
            forall|i: int| 0 <= i < files@.len() ==> (#[trigger] files@[i]).wf(),
        ensures
            match recovers(max_file_size as nat, views(files@), &CommitLogParser) {
                Ok(segments) => r matches Ok(log) && log.wf() && log@ == (QueueView {
                    store_path: commit_log_path(store_path@),
                    capacity: max_file_size as nat,
                    segments,
                }),
                Err(e) => r matches Err(f) && e == f,
            },
    {
        let dir = commit_log_dir(store_path);
        match MappedFileQueue::new(dir.as_str(), max_file_size) {
            Err(e) => Err(e),
            Ok(queue) => {
                let mut queue = queue;
                match queue.recovery(files, &CommitLogParser) {
                    Err(e) => Err(e),
                    Ok(()) => Ok(CommitLog { mapped_file_queue: queue }),
                }
            },
        }
    }

    /// The directory that holds the segment files.
    pub fn store_path(&self) -> (r: &str)
        ensures
            r@ == self@.store_path,
    {
        self.mapped_file_queue.store_path()
    }

    /// The capacity of every segment.
    pub fn max_file_size(&self) -> (r: u64)
        ensures
            r == self@.capacity,
    {
        self.mapped_file_queue.max_file_size()
    }

    /// The address behind the last committed byte.
    pub fn frontier(&self) -> (r: usize)
        requires
            self.wf(),
        ensures
            r == self@.frontier(),
    {
        self.mapped_file_queue.frontier()
    }

    /// Whether there is a tail segment in which `len` more bytes fit.
    pub fn has_room(&self, len: usize) -> (r: bool)
        requires
            self.wf(),
        ensures
            r == self@.has_room(len as nat),
    {
        self.mapped_file_queue.has_room(len)
    }

    /// Gives the segments back, from the first address on.
    pub fn into_mapped_files(self) -> (r: Vec<MemoryMappedFile>)
        ensures
            views(r@) == self@.segments,
    {
        self.mapped_file_queue.into_mapped_files()
    }

    /// Adds a new, empty tail segment over `mmap`, as `MappedFileQueue` does.
    pub fn create_mapped_file(&mut self, mmap: MmapMut, start_offset: usize) -> (r: Result<
        (),
        Error,
    >)
        requires
            old(self).wf(),
        ensures
            final(self).wf(),
            r is Ok <==> old(self)@.takes_tail(start_offset as nat, mmap_bytes(mmap).len()),
            r is Ok ==> final(self)@ == old(self)@.rolled(mmap_bytes(mmap)),
            r matches Err(e) ==> e == Error::InvalidInput && final(self)@ == old(self)@,
    {
        self.mapped_file_queue.create_mapped_file(mmap, start_offset)
    }

    /// Writes the record of `payload` and answers with its address and its
    /// footprint, the payload's length and eight. An empty payload fails with
    /// `InvalidInput`, a record that no segment can hold with `RecordTooLarge`.
    /// Where the tail has no room for the record, nothing is written and the
    /// answer is `Rollover` with the address at which the new tail has to start.
    /// `StorageIO` says that the mapping could not be made durable: then the
    /// frontier has not moved.
    pub fn write_records(&mut self, payload: &Vec<u8>) -> (r: Result<Step<(usize, usize)>, Error>)
        requires
            old(self).wf(),
        ensures
            final(self).wf(),
            log_writes(old(self)@, payload@, r, final(self)@),
    {
        let len = payload.len();
        if len == 0 {
            return Err(Error::InvalidInput);
        }
        if len > usize::MAX - LENGTH_PREFIX_SIZE {
            return Err(Error::RecordTooLarge);
        }
        let mut record = u64_to_bytes(len as u64);
        record.extend_from_slice(payload.as_slice());
        assert(record@ =~= record_bytes(payload@));
        match self.mapped_file_queue.append(&record) {
            Ok(Step::Done(offset)) => Ok(Step::Done((offset, LENGTH_PREFIX_SIZE + len))),
            Ok(Step::Rollover(start)) => Ok(Step::Rollover(start)),
            Err(e) => Err(e),
        }
    }

    /// Reads the record that an index unit points to, length prefix and payload.
    /// A unit of size zero fails with `InvalidInput`; else the call fails as
    /// `MappedFileQueue::read` does.
    pub fn read_records(&self, msg_index_unit: &MessageIndexUnit) -> (r: Result<Vec<u8>, Error>)
        requires
            self.wf(),
        ensures
            read_is(r, log_read(self@, *msg_index_unit)),
    {
        if msg_index_unit.size == 0 {
            return Err(Error::InvalidInput);
        }
        if msg_index_unit.offset > usize::MAX as u64 {
            proof {
                lemma_covered_is_address(
                    self@,
                    msg_index_unit.offset as nat,
                );
            }
            return Err(Error::OffsetNotFound);
        }
        self.mapped_file_queue.read(msg_index_unit.offset as usize, msg_index_unit.size as usize)
    }
}

} // verus!
