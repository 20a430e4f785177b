//! The firmware's description of one memory region.
use vstd::prelude::*;

verus! {

/// One region of a firmware memory map: `[start, end)` and whether it is
/// free for the kernel to use.
pub struct MemoryMapEntry {
    pub start: usize,
    pub end: usize,
    pub available: bool,
}

impl MemoryMapEntry {
    pub fn new(start: usize, end: usize, available: bool) -> (r: MemoryMapEntry)
        ensures
            r.start == start,
            r.end == end,
            r.available == available,
    {
        MemoryMapEntry { start, end, available }
    }

    pub fn start(&self) -> (r: usize)
        ensures
            r == self.start,
    {
        self.start
    }

    pub fn end(&self) -> (r: usize)
        ensures
            r == self.end,
    {
        self.end
    }

    pub fn is_available(&self) -> (r: bool)
        ensures
            r == self.available,
    {
        self.available
    }
}

} // verus!
