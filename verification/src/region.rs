//! Content model of one anonymous, private, read-write memory region.
//!
//! The region is owned exclusively by the run that created it and is released
//! when it is dropped. A freshly mapped anonymous region reads as zero on
//! every byte, whether or not its pages are resident; `force_resident` only
//! pre-faults the pages and leaves no observable mark on the content.

use vstd::prelude::*;

use crate::frac::{dirty_byte_count, dirty_byte_count_spec, DirtyFraction};
use crate::BenchError;

verus! {

/// One anonymous memory region: its byte content and the fraction of it that
/// `make_dirty` writes.
pub struct MemoryRegion {
    data: Vec<u8>,
    dirty_fraction: DirtyFraction,
}

impl View for MemoryRegion {
    type V = Seq<u8>;

    /// The region is viewed as the sequence of its bytes.
    closed spec fn view(&self) -> Seq<u8> {
        self.data@
    }
}

impl MemoryRegion {
    /// A region is well-formed when its dirty fraction is.
    pub open spec fn wf(&self) -> bool {
        self.spec_dirty_fraction().wf()
    }

    /// The dirty fraction the region was created with.
    pub closed spec fn spec_dirty_fraction(&self) -> DirtyFraction {
        self.dirty_fraction
    }

    /// Maps a region of `size` bytes, reading as zero throughout. Mapping
    /// zero bytes is refused by the OS, so `size` must be positive.
    /// `force_resident` pre-faults every page; the content is unaffected.
    pub fn new(size: usize, dirty_fraction: DirtyFraction, force_resident: bool) -> (r: Result<
        MemoryRegion,
        BenchError,
    >)
        requires
            dirty_fraction.wf(),
        ensures
            r is Ok <==> size > 0,
            r matches Ok(region) ==> {
                &&& region.wf()
                &&& region@.len() == size
                &&& forall|i: int| 0 <= i < size ==> region@[i] == 0
                &&& region.spec_dirty_fraction() == dirty_fraction
            },
            r is Err ==> r == Err::<MemoryRegion, BenchError>(BenchError::MapFailed),
    {
        if size == 0 {
            return Err(BenchError::MapFailed);
        }
        let data: Vec<u8> = vec![0u8; size];
        let _ = force_resident;
        Ok(MemoryRegion { data, dirty_fraction })
    }

    /// The region's size in bytes.
    pub fn size(&self) -> (r: usize)
        ensures
            r == self@.len(),
    {
        self.data.len()
    }

    /// The dirty fraction the region was created with.
    pub fn dirty_fraction(&self) -> (r: DirtyFraction)
        ensures
            r == self.spec_dirty_fraction(),
    {
        self.dirty_fraction
    }

    /// Reads one byte.
    pub fn byte_at(&self, i: usize) -> (r: u8)
        requires
            i < self@.len(),
        ensures
            r == self@[i as int],
    {
        self.data[i]
    }

    /// Writes `value` across every byte of the region.
    pub fn fill(&mut self, value: u8)
        ensures
            final(self)@.len() == old(self)@.len(),
            forall|i: int| 0 <= i < old(self)@.len() ==> final(self)@[i] == value,
            final(self).spec_dirty_fraction() == old(self).spec_dirty_fraction(),
    {
        let len = self.data.len();
        let mut i: usize = 0;
        while i < len
            invariant
                i <= len,
                len == self.data.len(),
                forall|j: int| 0 <= j < i ==> self.data@[j] == value,
                self.dirty_fraction == old(self).dirty_fraction,
            decreases len - i,
        {
            self.data[i] = value;
            i += 1;
        }
    }

    /// Writes `value` across the bytes of `[start, end)`.
    pub fn fill_range(&mut self, start: usize, end: usize, value: u8)
        requires
            start <= end,
            end <= old(self)@.len(),
        ensures
            final(self)@.len() == old(self)@.len(),
            forall|i: int|
                0 <= i < old(self)@.len() ==> final(self)@[i] == if start <= i < end {
                    value
                } else {
                    old(self)@[i]
                },
            final(self).spec_dirty_fraction() == old(self).spec_dirty_fraction(),
    {
        let mut i: usize = start;
        while i < end
            invariant
                start <= i <= end,
                end <= self.data.len(),
                self.data.len() == old(self)@.len(),
                forall|j: int|
                    0 <= j < self.data.len() ==> self.data@[j] == if start <= j < i {
                        value
                    } else {
                        old(self)@[j]
                    },
                self.dirty_fraction == old(self).dirty_fraction,
            decreases end - i,
        {
            self.data[i] = value;
            i += 1;
        }
    }

    /// Writes the fixed pattern `0xAA` across the first `round(size *
    /// fraction)` bytes; the rest of the region is untouched. Writing any
    /// byte within a page marks the whole page dirty, so the byte count is
    /// an approximation of the dirtied page count at page granularity.
    pub fn make_dirty(&mut self)
        requires
            old(self).wf(),
        ensures
            final(self)@.len() == old(self)@.len(),
            forall|i: int|
                0 <= i < old(self)@.len() ==> final(self)@[i] == if i < dirty_byte_count_spec(
                    old(self)@.len() as int,
                    old(self).spec_dirty_fraction().num as int,
                    old(self).spec_dirty_fraction().den as int,
                ) {
                    0xAAu8
                } else {
                    old(self)@[i]
                },
            final(self).spec_dirty_fraction() == old(self).spec_dirty_fraction(),
            final(self).wf(),
    {
        let size = self.data.len();
        let dirty_bytes = dirty_byte_count(size, self.dirty_fraction);
        if dirty_bytes > 0 {
            self.fill_range(0, dirty_bytes, 0xAA);
        }
    }
}

} // verus!
