//! The memory map of one segment file, seen as a sequence of bytes.

use vstd::prelude::*;
use memmap2::MmapMut;

verus! {

/// `memmap2::MmapMut`, a writable memory map, of which nothing is known here but
/// what the items below say.
#[verifier::external_type_specification]
#[verifier::external_body]
pub struct ExMmapMut(memmap2::MmapMut);

/// `std::io::Error`, the reason why the operating system refused something; the
/// store never looks into it.
#[verifier::external_type_specification]
#[verifier::external_body]
pub struct ExIoError(std::io::Error);

/// The bytes that a mapping holds, from its first to its last: what `MmapMut`'s
/// `Deref` to `[u8]` shows.
pub uninterp spec fn mmap_bytes(m: MmapMut) -> Seq<u8>;

/// The mapped bytes as a slice: `MmapMut`'s `Deref` to `[u8]`, which covers the
/// whole mapping.
#[verifier::external_body]
pub(crate) fn as_bytes(m: &MmapMut) -> (bytes: &[u8])
    ensures
        bytes@ == mmap_bytes(*m),
{
    &m[..]
}

/// Copies `data` over the mapped bytes from `start` up to `end`, through
/// `MmapMut`'s `DerefMut` and the slice's `copy_from_slice`; every other byte
/// keeps its value. The range has to lie in the mapping and to be as long as
/// `data`, else the copy would panic.
#[verifier::external_body]
pub(crate) fn write_at(m: &mut MmapMut, start: usize, end: usize, data: &[u8])
    requires
        start <= end <= mmap_bytes(*old(m)).len(),
        data@.len() == end - start,
    ensures
        mmap_bytes(*final(m)) == mmap_bytes(*old(m)).subrange(0, start as int) + data@
            + mmap_bytes(*old(m)).subrange(end as int, mmap_bytes(*old(m)).len() as int),
{
    m[start..end].copy_from_slice(data);
}

/// `MmapMut::flush` asks the operating system to store the mapped bytes durably.
/// Whether it succeeds is the system's to decide: nothing is said of the result.
/// The mapping holds what it held.
pub assume_specification[ memmap2::MmapMut::flush ](m: &MmapMut) -> (r: std::io::Result<()>)
;

} // verus!
