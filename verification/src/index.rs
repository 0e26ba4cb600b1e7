//! An index in one mapping: the unit of the message with the index `n` lies at
//! the byte `12 * n`, whether or not the units before it have been put.

use vstd::prelude::*;
use vstd::slice::slice_subrange;
use memmap2::MmapMut;
use crate::error::Error;
use crate::mapping::as_bytes;
use crate::mapping::mmap_bytes;
use crate::mapping::write_at;
use crate::msg_index::lemma_unit_round_trip;
use crate::msg_index::MSG_INDEX_UNIT_SIZE;
pub use crate::msg_index::MessageIndexUnit;

verus! {

/// Whether `bytes` have room for the unit with the index `msg_index`.
pub open spec fn has_slot(bytes: Seq<u8>, msg_index: nat) -> bool {
    (msg_index + 1) * MSG_INDEX_UNIT_SIZE <= bytes.len()
}

/// The bytes of the unit with the index `msg_index`.
pub open spec fn slot(bytes: Seq<u8>, msg_index: nat) -> Seq<u8> {
    bytes.subrange(msg_index * MSG_INDEX_UNIT_SIZE, (msg_index + 1) * MSG_INDEX_UNIT_SIZE)
}

/// `bytes` with `unit` in place of the unit with the index `msg_index`.
pub open spec fn with_slot(bytes: Seq<u8>, msg_index: nat, unit: MessageIndexUnit) -> Seq<u8> {
    bytes.subrange(0, msg_index * MSG_INDEX_UNIT_SIZE) + unit.spec_encode() + bytes.subrange(
        (msg_index + 1) * MSG_INDEX_UNIT_SIZE,
        bytes.len() as int,
    )
}

/// A unit that has been put is the unit that is read at its index, and the
/// units at other indexes are what they were.
pub proof fn lemma_slot_holds_unit(
    bytes: Seq<u8>,
    msg_index: nat,
    unit: MessageIndexUnit,
    other: nat,
)
    requires
        has_slot(bytes, msg_index),
    ensures
        with_slot(bytes, msg_index, unit).len() == bytes.len(),
        MessageIndexUnit::spec_decode(slot(with_slot(bytes, msg_index, unit), msg_index)) == unit,
        other != msg_index && has_slot(bytes, other) ==> slot(
            with_slot(bytes, msg_index, unit),
            other,
        ) == slot(bytes, other),
{
    lemma_unit_round_trip(unit);
    let after = with_slot(bytes, msg_index, unit);
    assert(slot(after, msg_index) =~= unit.spec_encode());
    if other != msg_index && has_slot(bytes, other) {
        assert((other + 1) * 12 <= msg_index * 12 || (msg_index + 1) * 12 <= other * 12);
        assert(slot(after, other) =~= slot(bytes, other));
    }
}

/// An index of units in one memory-mapped file.
pub struct MessageIndexFile {
    mmap: MmapMut,
}

impl View for MessageIndexFile {
    type V = Seq<u8>;

    /// Every mapped byte.
    closed spec fn view(&self) -> Seq<u8> {
        mmap_bytes(self.mmap)
    }
}

impl MessageIndexFile {
    /// Makes the index over a mapping.
    pub fn open(mmap: MmapMut) -> (file: Self)
        ensures
            file@ == mmap_bytes(mmap),
    {
        MessageIndexFile { mmap }
    }

    /// Gives the mapping back.
    pub fn into_mapping(self) -> (mmap: MmapMut)
        ensures
            mmap_bytes(mmap) == self@,
    {
        self.mmap
    }

    /// Puts the unit of the message with the index `msg_index` and returns the
    /// index. Fails with `InvalidInput`, and changes nothing, where the mapping
    /// has no room for that unit, and with `StorageIO` where the unit is in the
    /// mapping but the mapping could not be made durable.
    pub fn put_msg_index(&mut self, msg_index: usize, msg_offset: u64, msg_size: u32) -> (r: Result<
        usize,
        Error,
    >)
        ensures
            !has_slot(old(self)@, msg_index as nat) ==> r == Err::<usize, Error>(
                Error::InvalidInput,
            ) && final(self)@ == old(self)@,
            has_slot(old(self)@, msg_index as nat) ==> (r == Ok::<usize, Error>(msg_index) || r
                == Err::<usize, Error>(Error::StorageIO)) && final(self)@ == with_slot(
                old(self)@,
                msg_index as nat,
                MessageIndexUnit { offset: msg_offset, size: msg_size },
            ),
    {
        let len = as_bytes(&self.mmap).len();
        if msg_index >= len / MSG_INDEX_UNIT_SIZE {
            return Err(Error::InvalidInput);
        }
        let unit = MessageIndexUnit { offset: msg_offset, size: msg_size };
        let bytes = unit.encode();
        let position = msg_index * MSG_INDEX_UNIT_SIZE;
        write_at(&mut self.mmap, position, position + MSG_INDEX_UNIT_SIZE, bytes.as_slice());
        match self.mmap.flush() {
            Ok(()) => Ok(msg_index),
            Err(_) => Err(Error::StorageIO),
        }
    }

    /// Reads the unit of the message with the index `msg_index`. Fails with
    /// `InvalidInput` where the mapping has no room for that unit.
    pub fn read_msg_index(&self, msg_index: usize) -> (r: Result<MessageIndexUnit, Error>)
        ensures
            r == (if has_slot(self@, msg_index as nat) {
                Ok::<MessageIndexUnit, Error>(
                    MessageIndexUnit::spec_decode(slot(self@, msg_index as nat)),
                )
            } else {
                Err::<MessageIndexUnit, Error>(Error::InvalidInput)
            }),
    {
        let bytes = as_bytes(&self.mmap);
        let len = bytes.len();
        if msg_index >= len / MSG_INDEX_UNIT_SIZE {
            return Err(Error::InvalidInput);
        }
        let position = msg_index * MSG_INDEX_UNIT_SIZE;
        Ok(MessageIndexUnit::decode(slice_subrange(bytes, position, position + MSG_INDEX_UNIT_SIZE)))
    }
}

} // verus!
