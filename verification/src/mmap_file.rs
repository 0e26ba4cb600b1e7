//! One segment: a mapping of fixed capacity that covers the absolute byte range
//! from `min_offset` on, and knows up to where it has been written.

use vstd::prelude::*;
use vstd::slice::slice_subrange;
use vstd::slice::slice_to_vec;
use memmap2::MmapMut;
use crate::error::Error;
use crate::mapping::as_bytes;
use crate::mapping::mmap_bytes;
use crate::mapping::write_at;
use crate::record::RecordParser;
use crate::record::scan_end;
use crate::record::zero_from;

verus! {

/// A segment as plain values.
pub struct SegmentView {
    /// The absolute offset of the first mapped byte.
    pub min_offset: nat,
    /// The write frontier: the absolute offset behind the last committed byte.
    pub max_offset: nat,
    /// Every mapped byte, committed or not.
    pub bytes: Seq<u8>,
}

impl SegmentView {
    /// The number of bytes that the segment can hold.
    pub open spec fn capacity(self) -> nat {
        self.bytes.len()
    }

    /// The number of committed bytes.
    pub open spec fn used(self) -> nat {
        (self.max_offset - self.min_offset) as nat
    }

    /// The frontier lies inside the mapping, and every address is a `usize`.
    pub open spec fn wf(self) -> bool {
        &&& self.min_offset <= self.max_offset <= self.min_offset + self.capacity()
        &&& self.min_offset + self.capacity() <= usize::MAX
    }

    /// Whether `offset` is the address of a committed byte.
    pub open spec fn contains(self, offset: nat) -> bool {
        self.min_offset <= offset < self.max_offset
    }

    /// Whether `len` more bytes fit behind the frontier.
    pub open spec fn fits(self, len: nat) -> bool {
        self.used() + len <= self.capacity()
    }

    /// The mapped bytes after `data` has been copied in behind the frontier.
    pub open spec fn written(self, data: Seq<u8>) -> Seq<u8> {
        self.bytes.subrange(0, self.used() as int) + data + self.bytes.subrange(
            (self.used() + data.len()) as int,
            self.capacity() as int,
        )
    }

    /// The segment after `data` has been appended.
    pub open spec fn append(self, data: Seq<u8>) -> SegmentView {
        SegmentView {
            min_offset: self.min_offset,
            max_offset: self.max_offset + data.len(),
            bytes: self.written(data),
        }
    }

    /// The segment after `data` has been copied in behind the frontier and the
    /// frontier has stayed.
    pub open spec fn stained(self, data: Seq<u8>) -> SegmentView {
        SegmentView { bytes: self.written(data), ..self }
    }

    /// Whether an append of `data` may answer `r` and leave the segment as `after`:
    /// bytes that do not fit change nothing; bytes that fit are copied in, and are
    /// committed unless the mapping could not be made durable.
    pub open spec fn appends(
        self,
        data: Seq<u8>,
        r: Result<usize, Error>,
        after: SegmentView,
    ) -> bool {
        if !self.fits(data.len()) {
            r == Err::<usize, Error>(Error::CapacityExceeded) && after == self
        } else {
            ||| (r == Ok::<usize, Error>(self.max_offset as usize) && after == self.append(data))
            ||| (r == Err::<usize, Error>(Error::StorageIO) && after == self.stained(data))
        }
    }

    /// Whether `size` bytes can be read at `offset`: the address is not before the
    /// segment, and the bytes end before the last mapped byte's end.
    pub open spec fn readable(self, offset: nat, size: nat) -> bool {
        &&& self.min_offset <= offset
        &&& (offset - self.min_offset) + size < self.capacity()
    }

    /// The `size` mapped bytes at `offset`.
    pub open spec fn read(self, offset: nat, size: nat) -> Seq<u8> {
        self.bytes.subrange(offset - self.min_offset, offset - self.min_offset + size)
    }

    /// What a read of `size` bytes at `offset` gives.
    pub open spec fn try_read(self, offset: nat, size: nat) -> Result<Seq<u8>, Error> {
        if self.readable(offset, size) {
            Ok(self.read(offset, size))
        } else {
            Err(Error::OutOfRange)
        }
    }

    /// Whether every byte behind the frontier is zero, as in a new file.
    pub open spec fn is_clean(self) -> bool {
        zero_from(self.bytes, self.used())
    }

    /// Whether a scan of the bytes stops at the frontier: the segment as it is
    /// would be recovered as it is.
    pub open spec fn scans_back<P: RecordParser>(self, parser: &P) -> bool {
        scan_end(parser, self.bytes, 0) == self.used()
    }

    /// The segment with nothing committed, as it is when its file has just been
    /// mapped.
    pub open spec fn reopened(self) -> SegmentView {
        SegmentView { max_offset: self.min_offset, ..self }
    }

    /// The segment with its frontier where a scan of its bytes stops.
    pub open spec fn recovered<P: RecordParser>(self, parser: &P) -> SegmentView {
        SegmentView {
            min_offset: self.min_offset,
            max_offset: self.min_offset + scan_end(parser, self.bytes, 0),
            bytes: self.bytes,
        }
    }
}

/// Whether a read gave what it was to give.
pub open spec fn read_is(r: Result<Vec<u8>, Error>, expected: Result<Seq<u8>, Error>) -> bool {
    match (r, expected) {
        (Ok(bytes), Ok(s)) => bytes@ == s,
        (Err(e), Err(f)) => e == f,
        _ => false,
    }
}

/// A memory-mapped segment file.
pub struct MemoryMappedFile {
    mmap: MmapMut,
    min_offset: usize,
    max_offset: usize,
}

impl View for MemoryMappedFile {
    type V = SegmentView;

    closed spec fn view(&self) -> SegmentView {
        SegmentView {
            min_offset: self.min_offset as nat,
            max_offset: self.max_offset as nat,
            bytes: mmap_bytes(self.mmap),
        }
    }
}

impl MemoryMappedFile {
    /// The invariant of a segment.
    pub open spec fn wf(&self) -> bool {
        self@.wf()
    }

    /// Makes the segment that starts at `start_offset` of a mapping, with nothing
    /// committed. Fails with `InvalidInput` where the segment's last address would
    /// not be a `usize`.
    pub fn new(mmap: MmapMut, start_offset: usize) -> (r: Result<Self, Error>)
        ensures
            r is Ok <==> start_offset + mmap_bytes(mmap).len() <= usize::MAX,
            r matches Ok(file) ==> file.wf() && file@ == (SegmentView {
                min_offset: start_offset as nat,
                max_offset: start_offset as nat,
                bytes: mmap_bytes(mmap),
            }),
            r matches Err(e) ==> e == Error::InvalidInput,
    {
        let capacity = as_bytes(&mmap).len();
        if capacity > usize::MAX - start_offset {
            return Err(Error::InvalidInput);
        }
        Ok(MemoryMappedFile { mmap, min_offset: start_offset, max_offset: start_offset })
    }

    /// Gives the mapping back.
    pub fn into_mapping(self) -> (mmap: MmapMut)
        ensures
            mmap_bytes(mmap) == self@.bytes,
    {
        self.mmap
    }

    /// The absolute offset of the first mapped byte.
    pub fn get_min_offset(&self) -> (r: usize)
        ensures
            r == self@.min_offset,
    {
        self.min_offset
    }

    /// The write frontier: the absolute offset behind the last committed byte.
    pub fn get_max_offset(&self) -> (r: usize)
        ensures
            r == self@.max_offset,
    {
        self.max_offset
    }

    /// The number of bytes that the segment can hold.
    pub fn capacity(&self) -> (r: usize)
        ensures
            r == self@.capacity(),
    {
        as_bytes(&self.mmap).len()
    }

    /// Moves the frontier to `max_offset`, which lies inside the mapping.
    pub fn set_max_offset(&mut self, max_offset: usize)
        requires
            old(self).wf(),
            old(self)@.min_offset <= max_offset <= old(self)@.min_offset + old(self)@.capacity(),
        ensures
            final(self).wf(),
            final(self)@ == (SegmentView { max_offset: max_offset as nat, ..old(self)@ }),
    {
        self.max_offset = max_offset;
    }

    /// Whether `offset` is the address of a committed byte.
    pub fn contains(&self, offset: usize) -> (r: bool)
        ensures
            r == self@.contains(offset as nat),
    {
        self.min_offset <= offset && offset < self.max_offset
    }

    /// Recovers the frontier by a scan from the first mapped byte.
    pub fn read_record<P: RecordParser>(&mut self, parser: &P)
        requires
            old(self).wf(),
        ensures
            final(self).wf(),
            final(self)@ == old(self)@.recovered(parser),
    {
        let bytes = as_bytes(&self.mmap);
        let len = bytes.len();
        let mut pos: usize = 0;
        let mut done = false;
        while !done
            invariant
                pos <= len,
                len == bytes@.len(),
                scan_end(parser, bytes@, pos as nat) == scan_end(parser, bytes@, 0),
                done ==> scan_end(parser, bytes@, pos as nat) == pos,
            decreases len - pos + (if done { 0int } else { 1int }),
        {
            match parser.parse(bytes, pos) {
                Some(n) => {
                    if n > 0 && n <= len - pos {
                        pos = pos + n;
                    } else {
                        done = true;
                    }
                },
                None => {
                    done = true;
                },
            }
        }
        self.max_offset = self.min_offset + pos;
    }

    /// Appends `data` behind the frontier and returns the address of its first
    /// byte. Fails with `CapacityExceeded`, and changes nothing, where the bytes do
    /// not fit. Where they fit they are copied into the mapping; the frontier moves
    /// only if the mapping could then be made durable, else the call fails with
    /// `StorageIO`.
    pub fn append(&mut self, data: &Vec<u8>) -> (r: Result<usize, Error>)
        requires
            old(self).wf(),
        ensures
            final(self).wf(),
            old(self)@.appends(data@, r, final(self)@),
    {
        let capacity = as_bytes(&self.mmap).len();
        let write_pos = self.max_offset - self.min_offset;
        if data.len() > capacity - write_pos {
            return Err(Error::CapacityExceeded);
        }
        write_at(&mut self.mmap, write_pos, write_pos + data.len(), data.as_slice());
        let flushed = self.mmap.flush();
        self.commit(data.len(), flushed.is_ok())
    }

    /// Moves the frontier over `len` bytes that were written behind it, if they
    /// were made durable, and returns the address of the first of them. Fails with
    /// `StorageIO` where they were not, and with `CapacityExceeded` where no `len`
    /// bytes fit behind the frontier; a failure changes nothing.
    pub fn commit(&mut self, len: usize, durable: bool) -> (r: Result<usize, Error>)
        requires
            old(self).wf(),
        ensures
            final(self).wf(),
            !old(self)@.fits(len as nat) ==> r == Err::<usize, Error>(Error::CapacityExceeded)
                && final(self)@ == old(self)@,
            old(self)@.fits(len as nat) && !durable ==> r == Err::<usize, Error>(Error::StorageIO)
                && final(self)@ == old(self)@,
            old(self)@.fits(len as nat) && durable ==> r == Ok::<usize, Error>(
                old(self)@.max_offset as usize,
            ) && final(self)@ == (SegmentView {
                max_offset: old(self)@.max_offset + len as nat,
                ..old(self)@
            }),
    {
        let capacity = as_bytes(&self.mmap).len();
        if len > capacity - (self.max_offset - self.min_offset) {
            Err(Error::CapacityExceeded)
        } else if durable {
            let old_offset = self.max_offset;
            self.max_offset = self.max_offset + len;
            Ok(old_offset)
        } else {
            Err(Error::StorageIO)
        }
    }

    /// Copies `size` mapped bytes at the absolute address `offset`. Fails with
    /// `OutOfRange` where the address lies before the segment or the bytes would
    /// reach the end of the mapping.
    pub fn read(&self, offset: usize, size: usize) -> (r: Result<Vec<u8>, Error>)
        requires
            self.wf(),
        ensures
            read_is(r, self@.try_read(offset as nat, size as nat)),
    {
        let bytes = as_bytes(&self.mmap);
        let capacity = bytes.len();
        if offset < self.min_offset {
            return Err(Error::OutOfRange);
        }
        let read_pos = offset - self.min_offset;
        if read_pos >= capacity || size >= capacity - read_pos {
            return Err(Error::OutOfRange);
        }
        Ok(slice_to_vec(slice_subrange(bytes, read_pos, read_pos + size)))
    }
}

} // verus!
