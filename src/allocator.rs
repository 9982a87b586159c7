//! The shared allocator: one lifecycle state behind one lock, so that every
//! request runs alone and sees a well-formed heap.
use vstd::prelude::*;
use vstd::rwlock::{RwLock, RwLockPredicate};
use crate::bootstrap::{MemRegion, first_region, page_extent, usable_extent};
use crate::heap::{AllocErr, FreeErr};
use crate::state::{HeapState, InitErr};

verus! {

/// What the lock keeps true of the state it guards.
pub struct WellFormed {}

impl RwLockPredicate<HeapState> for WellFormed {
    open spec fn inv(self, v: HeapState) -> bool {
        v.wf()
    }
}

/// Thread-safe (locking) wrapper around the heap.
pub struct Allocator {
    state: RwLock<HeapState, WellFormed>,
}

impl Allocator {
    /// An allocator without memory: every request is refused with
    /// `Uninitialized` until `initialize` or `init_memmap` succeeds.
    pub fn uninitialized() -> (r: Allocator) {
        Allocator { state: RwLock::new(HeapState::uninitialized(), Ghost(WellFormed {})) }
    }

    /// Gives the allocator the first memory region that the boot
    /// descriptors report, past the kernel image ending at `binary_end`.
    /// A boot without such a region cannot go on, so the caller checks with
    /// `memory_map` first.
    pub fn initialize(&self, records: &Vec<Option<MemRegion>>, binary_end: u32)
        requires
            usable_extent(first_region(records@), binary_end) is Some,
    {
        let (mut st, handle) = self.state.acquire_write();
        st.initialize(records, binary_end);
        handle.release_write(st);
    }

    /// Gives the allocator `npage` pages at `base`, of which those before
    /// `begin` are kept back. Fails with `RegionOverflow` exactly where the
    /// pages do not fit in the address space.
    pub fn init_memmap(&self, base: usize, npage: usize, begin: usize) -> (r: Result<(), InitErr>)
        ensures
            r == if page_extent(base, npage, begin) is None {
                Err::<(), InitErr>(InitErr::RegionOverflow)
            } else {
                Ok(())
            },
    {
        let (mut st, handle) = self.state.acquire_write();
        let r = st.init_memmap(base, npage, begin);
        handle.release_write(st);
        r
    }

    /// Allocates `size` bytes aligned to `align` under the lock. An address
    /// handed out is a multiple of `align` and the whole range fits in the
    /// address space; a zero size or alignment is never served.
    pub fn allocate(&self, size: usize, align: usize) -> (r: Result<usize, AllocErr>)
        ensures
            size == 0 || align == 0 ==> r is Err,
            r matches Ok(p) ==> p % align == 0 && p + size <= usize::MAX,
    {
        let (mut st, handle) = self.state.acquire_write();
        let ghost old_st = st;
        let r = st.allocate(size, align);
        proof {
            if let HeapState::Initialized(h) = old_st {
                if r is Ok {
                    crate::heap::lemma_alloc_result(h@, size, align);
                }
            }
        }
        handle.release_write(st);
        r
    }

    /// Gives back the allocation `[ptr, ptr + size)` under the lock. A range
    /// that is not a live allocation is refused with `NotAllocated`, and any
    /// release before memory was given with `Uninitialized`.
    pub fn deallocate(&self, ptr: usize, size: usize, align: usize) -> (r: Result<(), FreeErr>)
        ensures
            size == 0 ==> r is Err,
            r is Ok ==> ptr + size <= usize::MAX,
    {
        let (mut st, handle) = self.state.acquire_write();
        let ghost old_st = st;
        let r = st.deallocate(ptr, size, align);
        proof {
            if let HeapState::Initialized(h) = old_st {
                if r is Ok {
                    crate::heap::lemma_free_result(h@, ptr, size, align);
                }
            }
        }
        handle.release_write(st);
        r
    }
}

} // verus!
