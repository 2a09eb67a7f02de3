use vstd::prelude::*;

verus! {

/// A half-open byte range `[start, start + len)` of guest memory.
#[derive(Debug, Clone, Copy, PartialEq, Eq, Structural)]
pub struct Region {
    pub start: u32,
    pub len: u32,
}

/// One past the last byte of `r`, as a mathematical integer.
pub open spec fn region_end(r: Region) -> int {
    r.start as int + r.len as int
}

/// Two regions overlap when both are non-empty and their ranges intersect.
pub open spec fn spec_overlaps(a: Region, b: Region) -> bool {
    &&& a.len > 0
    &&& b.len > 0
    &&& a.start < region_end(b)
    &&& b.start < region_end(a)
}

/// A region lies in a memory of `mem_len` bytes when its end does not pass the end of memory.
pub open spec fn spec_in_bounds(r: Region, mem_len: nat) -> bool {
    region_end(r) <= mem_len
}

impl Region {
    pub fn new(start: u32, len: u32) -> (r: Region)
        ensures
            r.start == start,
            r.len == len,
    {
        Region { start, len }
    }

    /// Builds a region, failing when `start + len` does not fit the 32-bit address space.
    pub fn checked_new(start: u32, len: u32) -> (r: Option<Region>)
        ensures
            r is Some <==> start as int + len as int <= u32::MAX,
            r matches Some(g) ==> g.start == start && g.len == len,
    {
        match start.checked_add(len) {
            Some(_) => Some(Region { start, len }),
            None => None,
        }
    }

    pub fn is_empty(&self) -> (r: bool)
        ensures
            r == (self.len == 0),
    {
        self.len == 0
    }

    /// Whether the two half-open ranges share a byte; an empty region overlaps nothing.
    pub fn overlaps(&self, rhs: &Region) -> (r: bool)
        ensures
            r == spec_overlaps(*self, *rhs),
    {
        let a_end: u64 = self.start as u64 + self.len as u64;
        let b_end: u64 = rhs.start as u64 + rhs.len as u64;
        self.len > 0 && rhs.len > 0 && (self.start as u64) < b_end && (rhs.start as u64) < a_end
    }

    /// Whether the region lies within a memory of `mem_len` bytes.
    pub fn in_bounds(&self, mem_len: usize) -> (r: bool)
        ensures
            r == spec_in_bounds(*self, mem_len as nat),
    {
        let end: u64 = self.start as u64 + self.len as u64;
        end as u128 <= mem_len as u128
    }
}

/// Overlap does not depend on the order of the two regions.
pub proof fn lemma_overlaps_symmetric(a: Region, b: Region)
    ensures
        spec_overlaps(a, b) == spec_overlaps(b, a),
{
}

/// An empty region overlaps no region.
pub proof fn lemma_empty_never_overlaps(a: Region, b: Region)
    requires
        a.len == 0,
    ensures
        !spec_overlaps(a, b),
        !spec_overlaps(b, a),
{
}

/// A region ending past the memory's end is out of bounds; one ending exactly at it is in bounds.
pub proof fn lemma_bounds_boundary(r: Region, mem_len: nat)
    ensures
        region_end(r) > mem_len ==> !spec_in_bounds(r, mem_len),
        region_end(r) == mem_len ==> spec_in_bounds(r, mem_len),
{
}

} // verus!
