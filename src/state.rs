//! The allocator's lifecycle: no memory yet, or a heap over the extent it
//! was given.
use vstd::prelude::*;
use crate::bootstrap::{memory_map, pages_to_extent, first_region, usable_extent, page_extent, MemRegion};
use crate::heap::{fresh, AllocErr, FreeErr, Heap};

verus! {

/// Why the allocator could not be given memory.
#[derive(Clone, Copy, Debug, PartialEq, Eq, Structural)]
pub enum InitErr {
    /// The pages described do not fit in the address space.
    RegionOverflow,
}

/// Either no memory has been handed over yet, or a heap serves requests.
pub enum HeapState {
    Uninitialized,
    Initialized(Heap),
}

impl HeapState {
    pub open spec fn wf(&self) -> bool {
        match self {
            HeapState::Uninitialized => true,
            HeapState::Initialized(h) => h.wf(),
        }
    }

    /// The state in which every request is refused until memory is given.
    pub fn uninitialized() -> (r: HeapState)
        ensures
            r is Uninitialized,
            r.wf(),
    {
        HeapState::Uninitialized
    }

    /// Serves the allocator from the first memory region that the boot
    /// descriptors report, past the kernel image ending at `binary_end`.
    /// Such a region must exist: without one there is no heap and the boot
    /// cannot go on. Any earlier heap is dropped.
    pub fn initialize(&mut self, records: &Vec<Option<MemRegion>>, binary_end: u32)
        requires
            usable_extent(first_region(records@), binary_end) is Some,
        ensures
            final(self).wf(),
            usable_extent(first_region(records@), binary_end) matches Some((start, end))
                && (*final(self) matches HeapState::Initialized(h) && h@ == fresh(start as int, end as int)),
    {
        match memory_map(records, binary_end) {
            Some((start, end)) => {
                *self = HeapState::Initialized(Heap::new(start, end));
            },
            None => {},
        }
    }

    /// Serves the allocator from `npage` pages at `base`, leaving out the
    /// bytes before `begin` rounded up to a page. Where the pages do not fit
    /// in the address space nothing changes. Any earlier heap is dropped.
    pub fn init_memmap(&mut self, base: usize, npage: usize, begin: usize) -> (r: Result<(), InitErr>)
        requires
            old(self).wf(),
        ensures
            final(self).wf(),
            match page_extent(base, npage, begin) {
                None => r == Err::<(), InitErr>(InitErr::RegionOverflow) && *final(self) == *old(self),
                Some((start, end)) => r == Ok::<(), InitErr>(())
                    && (*final(self) matches HeapState::Initialized(h) && h@ == fresh(start as int, end as int)),
            },
    {
        match pages_to_extent(base, npage, begin) {
            Some((start, end)) => {
                *self = HeapState::Initialized(Heap::new(start, end));
                Ok(())
            },
            None => Err(InitErr::RegionOverflow),
        }
    }

    /// Allocates from the heap; refused with `Uninitialized` before memory
    /// has been given.
    pub fn allocate(&mut self, size: usize, align: usize) -> (r: Result<usize, AllocErr>)
        requires
            old(self).wf(),
        ensures
            final(self).wf(),
            match *old(self) {
                HeapState::Uninitialized => r == Err::<usize, AllocErr>(AllocErr::Uninitialized)
                    && *final(self) is Uninitialized,
                HeapState::Initialized(h) => r == h@.alloc_result(size, align)
                    && (*final(self) matches HeapState::Initialized(g) && g@ == h@.alloc_state(size, align)),
            },
    {
        match self {
            HeapState::Uninitialized => Err(AllocErr::Uninitialized),
            HeapState::Initialized(h) => h.allocate(size, align),
        }
    }

    /// Gives an allocation back to the heap; refused with `Uninitialized`
    /// before memory has been given.
    pub fn deallocate(&mut self, ptr: usize, size: usize, align: usize) -> (r: Result<(), FreeErr>)
        requires
            old(self).wf(),
        ensures
            final(self).wf(),
            match *old(self) {
                HeapState::Uninitialized => r == Err::<(), FreeErr>(FreeErr::Uninitialized)
                    && *final(self) is Uninitialized,
                HeapState::Initialized(h) => r == h@.free_result(ptr, size, align)
                    && (*final(self) matches HeapState::Initialized(g) && g@ == h@.free_state(ptr, size, align)),
            },
    {
        match self {
            HeapState::Uninitialized => Err(FreeErr::Uninitialized),
            HeapState::Initialized(h) => h.deallocate(ptr, size, align),
        }
    }
}

} // verus!
