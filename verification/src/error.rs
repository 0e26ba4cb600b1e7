//! The failures that the store reports.

use vstd::prelude::*;

verus! {

/// Why an operation of the store failed.
#[derive(Debug, Clone, Copy, PartialEq, Eq, Structural)]
pub enum Error {
    /// The operating system refused to make a mapping durable.
    StorageIO,
    /// The bytes do not fit in the space that is left in a segment.
    CapacityExceeded,
    /// The bytes do not fit in a segment at all.
    RecordTooLarge,
    /// No committed byte of any segment has the given address.
    OffsetNotFound,
    /// The addressed bytes reach the end of the segment's mapping.
    OutOfRange,
    /// An argument that no operation can work on.
    InvalidInput,
    /// The segments found in a directory do not form one gapless range.
    Corruption,
}

} // verus!
